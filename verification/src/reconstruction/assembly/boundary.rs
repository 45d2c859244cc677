//! Boundary rings of a set of source faces.
use vstd::prelude::*;
use crate::ordering::{ascending, find_id, unique, unique_keys};
use crate::reconstruction::assembly::rings::{is_link, next_in, on_ring, ring_at, rings_of, two_regular, two_regular_at};
use crate::reconstruction::planes::{edge_number, edge_number_at, edge_number_injective, perimeter_edge};
use crate::registry::Lists;

verus! {

/// A source face with its nodes in perimeter order.
#[derive(Debug)]
pub struct Face {
    pub id: u32,
    pub nodes: Vec<u32>,
}

pub open spec fn simple_face(nodes: Seq<u32>) -> bool {
    nodes.len() >= 3 && nodes.no_duplicates()
}

pub open spec fn simple_faces(faces: Seq<Face>) -> bool {
    forall|f: int| 0 <= f < faces.len() ==> simple_face((#[trigger] faces[f]).nodes@)
}

/// The face, once for each of its first `upto` sides that run along the edge.
pub open spec fn side_owners(nodes: Seq<u32>, edge: (u32, u32), upto: int, face: usize) -> Seq<usize>
    decreases upto,
{
    if upto <= 0 {
        Seq::empty()
    } else if perimeter_edge(nodes, upto - 1) == edge {
        side_owners(nodes, edge, upto - 1, face).push(face)
    } else {
        side_owners(nodes, edge, upto - 1, face)
    }
}

/// Those of the first `upto` faces that use the edge, once per use.
pub open spec fn owners(faces: Seq<Face>, edge: (u32, u32), upto: int) -> Seq<usize>
    decreases upto,
{
    if upto <= 0 {
        Seq::empty()
    } else {
        owners(faces, edge, upto - 1) + side_owners(
            faces[upto - 1].nodes@,
            edge,
            faces[upto - 1].nodes@.len() as int,
            (upto - 1) as usize,
        )
    }
}

pub open spec fn edge_owners(faces: Seq<Face>, edge: (u32, u32)) -> Seq<usize> {
    owners(faces, edge, faces.len() as int)
}

/// How often the faces use an edge.
pub open spec fn edge_uses(faces: Seq<Face>, edge: (u32, u32)) -> nat {
    edge_owners(faces, edge).len()
}

/// No edge is used by more than two faces.
pub open spec fn manifold(faces: Seq<Face>) -> bool {
    forall|edge: (u32, u32)| #[trigger] edge_uses(faces, edge) <= 2
}

/// An edge with material on one side only.
pub open spec fn boundary_edge(faces: Seq<Face>, edge: (u32, u32)) -> bool {
    edge_uses(faces, edge) == 1
}

pub open spec fn ordered_pair(a: u32, b: u32) -> (u32, u32) {
    if a <= b {
        (a, b)
    } else {
        (b, a)
    }
}

/// The pair list joins the two nodes.
pub open spec fn neighbours(pairs: Seq<(u32, u32)>, a: u32, b: u32) -> bool {
    pairs.contains(ordered_pair(a, b))
}

pub open spec fn endpoint(pairs: Seq<(u32, u32)>, node: u32) -> bool {
    exists|k: int| 0 <= k < pairs.len() && ((#[trigger] pairs[k]).0 == node || pairs[k].1 == node)
}

/// Exactly `b` and `c` are joined to `a`.
pub open spec fn exactly_two(pairs: Seq<(u32, u32)>, a: u32, b: u32, c: u32) -> bool {
    b < c && forall|x: u32| #[trigger] neighbours(pairs, a, x) <==> x == b || x == c
}

pub open spec fn has_two(pairs: Seq<(u32, u32)>, a: u32) -> bool {
    exists|b: u32, c: u32| exactly_two(pairs, a, b, c)
}

/// There are edges, and each node on them has exactly two neighbours.
pub open spec fn closes(pairs: Seq<(u32, u32)>) -> bool {
    pairs.len() > 0 && forall|node: u32| #[trigger] endpoint(pairs, node) ==> has_two(pairs, node)
}

pub open spec fn following(ring: Seq<u32>, k: int) -> u32 {
    if k + 1 < ring.len() {
        ring[k + 1]
    } else {
        ring[0]
    }
}

/// A closed ring of distinct nodes along joined pairs. It starts at its least
/// node and leaves it towards its smaller neighbour.
pub open spec fn node_ring(ring: Seq<u32>, pairs: Seq<(u32, u32)>) -> bool {
    &&& ring.len() >= 3
    &&& ring.no_duplicates()
    &&& forall|k: int| 0 <= k < ring.len() ==> ring[0] <= #[trigger] ring[k]
    &&& forall|k: int|
        0 <= k < ring.len() ==> neighbours(pairs, #[trigger] ring[k], following(ring, k))
    &&& ring[1] < ring[ring.len() - 1]
}

pub open spec fn ringed(rings: Seq<Vec<u32>>, node: u32) -> bool {
    exists|r: int, k: int|
        0 <= r < rings.len() && 0 <= k < rings[r]@.len() && #[trigger] rings[r]@[k] == node
}

/// The rings of the joined pairs: every node on exactly one, ordered by their
/// least nodes.
pub open spec fn rings_through(rings: Seq<Vec<u32>>, pairs: Seq<(u32, u32)>) -> bool {
    &&& forall|r: int| 0 <= r < rings.len() ==> node_ring((#[trigger] rings[r])@, pairs)
    &&& forall|node: u32| #[trigger] ringed(rings, node) <==> endpoint(pairs, node)
    &&& forall|r: int, s: int, k: int, l: int|
        #![trigger rings[r]@[k], rings[s]@[l]]
        0 <= r < rings.len() && 0 <= s < rings.len() && 0 <= k < rings[r]@.len() && 0 <= l
            < rings[s]@.len() && rings[r]@[k] == rings[s]@[l] ==> r == s
    &&& forall|r: int, s: int|
        0 <= r < s < rings.len() ==> #[trigger] rings[r]@[0] < #[trigger] rings[s]@[0]
}

/// Distinct pairs, the smaller node first.
pub open spec fn proper_pairs(pairs: Seq<(u32, u32)>) -> bool {
    &&& pairs.no_duplicates()
    &&& forall|k: int| 0 <= k < pairs.len() ==> (#[trigger] pairs[k]).0 < pairs[k].1
}

spec fn adjacency(lists: Lists, nodes: Seq<u32>, pairs: Seq<(u32, u32)>, upto: int) -> bool {
    &&& lists.well_formed()
    &&& forall|i: int| 0 <= i < nodes.len() ==> lists.at(#[trigger] nodes[i] as u64).no_duplicates()
    &&& forall|i: int, j: usize|
        0 <= i < nodes.len() ==> (#[trigger] lists.at(nodes[i] as u64).contains(j) <==> j < nodes.len() && neighbours(
            pairs.take(upto),
            nodes[i],
            nodes[j as int],
        ))
}

#[verifier::loop_isolation(false)]
pub(crate) fn endpoints(pairs: &Vec<(u32, u32)>) -> (nodes: Vec<u32>)
    ensures
        ascending(nodes@),
        forall|node: u32| #[trigger] nodes@.contains(node) <==> endpoint(pairs@, node),
{
    let mut all: Vec<u32> = Vec::new();
    let mut k: usize = 0;
    while k < pairs.len()
        invariant
            k <= pairs.len(),
            all.len() == 2 * k,
            forall|i: int| 0 <= i < k ==> all@[2 * i] == (#[trigger] pairs@[i]).0 && all@[2 * i + 1] == pairs@[i].1,
            forall|m: int| 0 <= m < all.len() ==> endpoint(pairs@, #[trigger] all@[m]),
        decreases pairs.len() - k,
    {
        let (a, b) = pairs[k];
        let ghost before = all@;
        all.push(a);
        all.push(b);
        proof {
            assert(pairs@[k as int].0 == a);
            assert(endpoint(pairs@, a) && endpoint(pairs@, b));
            assert forall|m: int| 0 <= m < all.len() implies endpoint(pairs@, #[trigger] all@[m]) by {
                if m < before.len() {
                    assert(all@[m] == before[m]);
                }
            }
            assert forall|i: int| 0 <= i < k + 1 implies all@[2 * i] == (#[trigger] pairs@[i]).0 && all@[2 * i + 1] == pairs@[i].1 by {
                if i < k {
                    assert(before[2 * i] == pairs@[i].0);
                }
            }
        }
        k += 1;
    }
    let ghost source = all@;
    let nodes = unique(all);
    proof {
        assert forall|node: u32| #[trigger] nodes@.contains(node) <==> endpoint(pairs@, node) by {
            if nodes@.contains(node) {
                assert(source.contains(node));
                let m = choose|m: int| 0 <= m < source.len() && source[m] == node;
                assert(endpoint(pairs@, source[m]));
            }
            if endpoint(pairs@, node) {
                let i = choose|i: int| 0 <= i < pairs@.len() && ((#[trigger] pairs@[i]).0 == node || pairs@[i].1 == node);
                assert(source[2 * i] == node || source[2 * i + 1] == node);
                assert(source.contains(node));
            }
        }
    }
    nodes
}

proof fn take_next(pairs: Seq<(u32, u32)>, k: int)
    requires
        0 <= k < pairs.len(),
    ensures
        forall|x: (u32, u32)| #[trigger] pairs.take(k + 1).contains(x) <==> pairs.take(k).contains(x) || x == pairs[k],
{
    let short = pairs.take(k);
    let long = pairs.take(k + 1);
    assert forall|x: (u32, u32)| #[trigger] long.contains(x) <==> short.contains(x) || x == pairs[k] by {
        if short.contains(x) {
            let m = choose|m: int| 0 <= m < short.len() && short[m] == x;
            assert(long[m] == x);
        }
        if long.contains(x) {
            let m = choose|m: int| 0 <= m < long.len() && long[m] == x;
            if m < k {
                assert(short[m] == x);
            }
        }
        assert(long[k] == pairs[k]);
    }
}

proof fn position_is_unique(nodes: Seq<u32>, i: int, j: int)
    requires
        ascending(nodes),
        0 <= i < nodes.len(),
        0 <= j < nodes.len(),
        nodes[i] == nodes[j],
    ensures
        i == j,
{
    if i < j {
        assert(nodes[i] < nodes[j]);
    } else if j < i {
        assert(nodes[j] < nodes[i]);
    }
}

proof fn adjacency_step(
    old_lists: Lists,
    middle: Lists,
    lists: Lists,
    nodes: Seq<u32>,
    pairs: Seq<(u32, u32)>,
    k: int,
    ia: usize,
    ib: usize,
)
    requires
        proper_pairs(pairs),
        ascending(nodes),
        0 <= k < pairs.len(),
        adjacency(old_lists, nodes, pairs, k),
        ia < nodes.len(),
        ib < nodes.len(),
        nodes[ia as int] == pairs[k].0,
        nodes[ib as int] == pairs[k].1,
        middle.at(pairs[k].0 as u64) == old_lists.at(pairs[k].0 as u64).push(ib),
        forall|x: u64| x != pairs[k].0 as u64 ==> #[trigger] middle.at(x) == old_lists.at(x),
        lists.well_formed(),
        lists.at(pairs[k].1 as u64) == middle.at(pairs[k].1 as u64).push(ia),
        forall|x: u64| x != pairs[k].1 as u64 ==> #[trigger] lists.at(x) == middle.at(x),
    ensures
        adjacency(lists, nodes, pairs, k + 1),
{
    let (a, b) = pairs[k];
    assert(a < b);
    take_next(pairs, k);
    assert(!pairs.take(k).contains(pairs[k])) by {
        if pairs.take(k).contains(pairs[k]) {
            let m = choose|m: int| 0 <= m < pairs.take(k).len() && pairs.take(k)[m] == pairs[k];
            assert(pairs[m] == pairs[k]);
        }
    }
    assert forall|i: int, j: usize| 0 <= i < nodes.len() implies (#[trigger] lists.at(nodes[i] as u64).contains(j) <==> j < nodes.len() && neighbours(pairs.take(k + 1), nodes[i], nodes[j as int])) by {
        let now = lists.at(nodes[i] as u64);
        let was = old_lists.at(nodes[i] as u64);
        assert(was.contains(j) <==> j < nodes.len() && neighbours(pairs.take(k), nodes[i], nodes[j as int]));
        if i == ia {
            assert(now == was.push(ib));
            push_contains(was, ib, j);
            if j < nodes.len() {
                if ordered_pair(nodes[i], nodes[j as int]) == (a, b) {
                    position_is_unique(nodes, j as int, ib as int);
                }
            }
        } else if i == ib {
            assert(now == was.push(ia));
            push_contains(was, ia, j);
            if j < nodes.len() {
                if ordered_pair(nodes[i], nodes[j as int]) == (a, b) {
                    position_is_unique(nodes, j as int, ia as int);
                }
            }
        } else {
            if nodes[i] == a {
                position_is_unique(nodes, i, ia as int);
            }
            if nodes[i] == b {
                position_is_unique(nodes, i, ib as int);
            }
            assert(now == was);
            assert(ordered_pair(nodes[i], nodes[j as int]) != (a, b));
        }
    }
    assert forall|i: int| 0 <= i < nodes.len() implies lists.at(#[trigger] nodes[i] as u64).no_duplicates() by {
        let was = old_lists.at(nodes[i] as u64);
        assert(was.no_duplicates());
        if i == ia {
            assert(was.contains(ib) <==> ib < nodes.len() && neighbours(pairs.take(k), nodes[i], nodes[ib as int]));
            assert(!was.contains(ib));
            assert(lists.at(nodes[i] as u64) == was.push(ib));
        } else if i == ib {
            assert(was.contains(ia) <==> ia < nodes.len() && neighbours(pairs.take(k), nodes[i], nodes[ia as int]));
            assert(!was.contains(ia));
            assert(lists.at(nodes[i] as u64) == was.push(ia));
        } else {
            if nodes[i] == a {
                position_is_unique(nodes, i, ia as int);
            }
            if nodes[i] == b {
                position_is_unique(nodes, i, ib as int);
            }
        }
    }
}

proof fn push_contains(s: Seq<usize>, value: usize, x: usize)
    ensures
        s.push(value).contains(x) <==> s.contains(x) || x == value,
{
    let t = s.push(value);
    if s.contains(x) {
        let m = choose|m: int| 0 <= m < s.len() && s[m] == x;
        assert(t[m] == x);
    }
    if t.contains(x) {
        let m = choose|m: int| 0 <= m < t.len() && t[m] == x;
        if m < s.len() {
            assert(s[m] == x);
        }
    }
    assert(t[s.len() as int] == value);
}

proof fn two_members(list: Seq<usize>, p: usize, q: usize)
    requires
        list.no_duplicates(),
        p != q,
        forall|x: usize| #[trigger] list.contains(x) <==> x == p || x == q,
    ensures
        list.len() == 2,
{
    list.unique_seq_to_set();
    assert(list.to_set() =~= Set::<usize>::empty().insert(p).insert(q)) by {
        assert forall|x: usize| list.to_set().contains(x) <==> Set::<usize>::empty().insert(p).insert(q).contains(x) by {
            assert(list.contains(x) <==> x == p || x == q);
        }
    }
}

spec fn links_match(links: Seq<(usize, usize)>, nodes: Seq<u32>, pairs: Seq<(u32, u32)>, i: int) -> bool {
    let (p, q) = links[i];
    p < q < nodes.len() && exactly_two(pairs, nodes[i], nodes[p as int], nodes[q as int])
}

#[verifier::loop_isolation(false)]
fn adjacency_lists(pairs: &Vec<(u32, u32)>, nodes: &Vec<u32>) -> (lists: Lists)
    requires
        proper_pairs(pairs@),
        ascending(nodes@),
        forall|node: u32| #[trigger] nodes@.contains(node) <==> endpoint(pairs@, node),
    ensures
        adjacency(lists, nodes@, pairs@, pairs@.len() as int),
{
    let mut lists = Lists::new();
    let mut k: usize = 0;
    proof {
        assert forall|i: int, j: usize| 0 <= i < nodes@.len() implies (#[trigger] lists.at(nodes@[i] as u64).contains(j) <==> j < nodes@.len() && neighbours(pairs@.take(0), nodes@[i], nodes@[j as int])) by {
            assert(pairs@.take(0).len() == 0);
        }
    }
    while k < pairs.len()
        invariant
            k <= pairs.len(),
            adjacency(lists, nodes@, pairs@, k as int),
        decreases pairs.len() - k,
    {
        let (a, b) = pairs[k];
        assert(pairs@[k as int].0 == a);
        assert(endpoint(pairs@, a) && endpoint(pairs@, b));
        assert(nodes@.contains(a) && nodes@.contains(b));
        let ia: usize = match find_id(nodes, a) {
            Some(i) => i,
            None => 0,
        };
        let ib: usize = match find_id(nodes, b) {
            Some(i) => i,
            None => 0,
        };
        let ghost before = lists;
        lists.push(a as u64, ib);
        let ghost middle = lists;
        lists.push(b as u64, ia);
        proof {
            adjacency_step(before, middle, lists, nodes@, pairs@, k as int, ia, ib);
        }
        k += 1;
    }
    lists
}

#[verifier::loop_isolation(false)]
fn neighbour_links(pairs: &Vec<(u32, u32)>, nodes: &Vec<u32>) -> (r: Option<Vec<(usize, usize)>>)
    requires
        proper_pairs(pairs@),
        ascending(nodes@),
        forall|node: u32| #[trigger] nodes@.contains(node) <==> endpoint(pairs@, node),
    ensures
        match r {
            Some(links) => {
                &&& links@.len() == nodes@.len()
                &&& forall|i: int| 0 <= i < nodes@.len() ==> #[trigger] links_match(links@, nodes@, pairs@, i)
            },
            None => exists|node: u32| #[trigger] endpoint(pairs@, node) && !has_two(pairs@, node),
        },
{
    let lists = adjacency_lists(pairs, nodes);
    let ghost k = pairs@.len() as int;
    assert(pairs@.take(k) =~= pairs@);
    let mut links: Vec<(usize, usize)> = Vec::new();
    let mut i: usize = 0;
    while i < nodes.len()
        invariant
            i <= nodes.len(),
            links.len() == i,
            forall|j: int| 0 <= j < i ==> #[trigger] links_match(links@, nodes@, pairs@, j),
        decreases nodes.len() - i,
    {
        let list = lists.get(nodes[i] as u64);
        let ghost node = nodes@[i as int];
        assert(list@.no_duplicates());
        assert forall|j: usize| #[trigger] list@.contains(j) <==> j < nodes@.len() && neighbours(pairs@, node, nodes@[j as int]) by {
            assert(lists.at(nodes@[i as int] as u64).contains(j) <==> j < nodes@.len() && neighbours(pairs@.take(k), nodes@[i as int], nodes@[j as int]));
        }
        proof {
            assert forall|x: u32| #[trigger] neighbours(pairs@, node, x) implies nodes@.contains(x) by {
                let pair = ordered_pair(node, x);
                let m = choose|m: int| 0 <= m < pairs@.len() && pairs@[m] == pair;
                assert(pairs@[m].0 == x || pairs@[m].1 == x);
                assert(endpoint(pairs@, x));
            }
        }
        if list.len() != 2 {
            proof {
                assert(nodes@.contains(node));
                if has_two(pairs@, node) {
                    let (b, c) = choose|b: u32, c: u32| exactly_two(pairs@, node, b, c);
                    assert(neighbours(pairs@, node, b) && neighbours(pairs@, node, c));
                    let p = choose|p: int| 0 <= p < nodes@.len() && nodes@[p] == b;
                    let q = choose|q: int| 0 <= q < nodes@.len() && nodes@[q] == c;
                    assert forall|x: usize| #[trigger] list@.contains(x) <==> x == p as usize || x == q as usize by {
                        assert(list@.contains(x) <==> x < nodes@.len() && neighbours(pairs@, node, nodes@[x as int]));
                        if list@.contains(x) {
                            assert(nodes@[x as int] == b || nodes@[x as int] == c);
                            if nodes@[x as int] == b {
                                position_is_unique(nodes@, x as int, p);
                            } else {
                                position_is_unique(nodes@, x as int, q);
                            }
                        }
                    }
                    two_members(list@, p as usize, q as usize);
                }
                assert(endpoint(pairs@, node) && !has_two(pairs@, node));
            }
            return None;
        }
        let first: usize = list[0];
        let second: usize = list[1];
        let low: usize = if first < second {
            first
        } else {
            second
        };
        let high: usize = if first < second {
            second
        } else {
            first
        };
        let ghost earlier = links@;
        links.push((low, high));
        proof {
            assert(list@[0] != list@[1]);
            assert(list@.contains(first) && list@.contains(second));
            assert(nodes@[low as int] < nodes@[high as int]);
            assert forall|x: u32| #[trigger] neighbours(pairs@, node, x) <==> x == nodes@[low as int] || x == nodes@[high as int] by {
                if neighbours(pairs@, node, x) {
                    let p = choose|p: int| 0 <= p < nodes@.len() && nodes@[p] == x;
                    assert(list@.contains(p as usize));
                    let m = choose|m: int| 0 <= m < list@.len() && list@[m] == p as usize;
                    assert(m == 0 || m == 1);
                }
            }
            assert forall|j: int| 0 <= j < i + 1 implies #[trigger] links_match(links@, nodes@, pairs@, j) by {
                if j < i {
                    assert(links_match(earlier, nodes@, pairs@, j));
                    assert(links@[j] == earlier[j]);
                }
            }
        }
        i += 1;
    }
    Some(links)
}

proof fn links_two_regular(links: Seq<(usize, usize)>, nodes: Seq<u32>, pairs: Seq<(u32, u32)>)
    requires
        proper_pairs(pairs),
        ascending(nodes),
        links.len() == nodes.len(),
        forall|i: int| 0 <= i < nodes.len() ==> #[trigger] links_match(links, nodes, pairs, i),
    ensures
        two_regular(links),
{
    assert forall|i: int| 0 <= i < links.len() implies two_regular_at(links, i) by {
        assert(links_match(links, nodes, pairs, i));
        let (p, q) = links[i];
        assert(neighbours(pairs, nodes[i], nodes[p as int]) && neighbours(pairs, nodes[i], nodes[q as int]));
        loops_excluded(pairs, nodes[i], nodes[p as int]);
        loops_excluded(pairs, nodes[i], nodes[q as int]);
        back_link(links, nodes, pairs, i, p as int);
        back_link(links, nodes, pairs, i, q as int);
    }
}

proof fn loops_excluded(pairs: Seq<(u32, u32)>, a: u32, b: u32)
    requires
        proper_pairs(pairs),
        neighbours(pairs, a, b),
    ensures
        a != b,
{
    let m = choose|m: int| 0 <= m < pairs.len() && pairs[m] == ordered_pair(a, b);
    assert(pairs[m].0 < pairs[m].1);
}

proof fn back_link(links: Seq<(usize, usize)>, nodes: Seq<u32>, pairs: Seq<(u32, u32)>, i: int, p: int)
    requires
        ascending(nodes),
        links.len() == nodes.len(),
        0 <= i < nodes.len(),
        0 <= p < nodes.len(),
        neighbours(pairs, nodes[i], nodes[p]),
        forall|j: int| 0 <= j < nodes.len() ==> #[trigger] links_match(links, nodes, pairs, j),
    ensures
        is_link(links, p, i),
{
    assert(links_match(links, nodes, pairs, p));
    assert(ordered_pair(nodes[i], nodes[p]) == ordered_pair(nodes[p], nodes[i]));
    assert(neighbours(pairs, nodes[p], nodes[i]));
    let (x, y) = links[p];
    assert(nodes[i] == nodes[x as int] || nodes[i] == nodes[y as int]);
    if nodes[i] == nodes[x as int] {
        position_is_unique(nodes, i, x as int);
    } else {
        position_is_unique(nodes, i, y as int);
    }
}

spec fn named(ring: Seq<u32>, dense: Seq<usize>, nodes: Seq<u32>) -> bool {
    ring.len() == dense.len() && forall|k: int| 0 <= k < dense.len() ==> #[trigger] ring[k] == nodes[dense[k] as int]
}

proof fn named_ring(ring: Seq<u32>, dense: Seq<usize>, nodes: Seq<u32>, links: Seq<(usize, usize)>, pairs: Seq<(u32, u32)>)
    requires
        named(ring, dense, nodes),
        ascending(nodes),
        links.len() == nodes.len(),
        two_regular(links),
        ring_at(links, dense),
        forall|j: int| 0 <= j < nodes.len() ==> #[trigger] links_match(links, nodes, pairs, j),
    ensures
        node_ring(ring, pairs),
{
    assert forall|i: int, j: int| 0 <= i < ring.len() && 0 <= j < ring.len() && i != j implies ring[i] != ring[j] by {
        assert(dense[i] != dense[j]);
        if ring[i] == ring[j] {
            position_is_unique(nodes, dense[i] as int, dense[j] as int);
        }
    }
    assert forall|k: int| 0 <= k < ring.len() implies ring[0] <= #[trigger] ring[k] by {
        assert(dense[0] <= dense[k]);
        if dense[0] < dense[k] {
            assert(nodes[dense[0] as int] < nodes[dense[k] as int]);
        }
    }
    assert forall|k: int| 0 <= k < ring.len() implies neighbours(pairs, #[trigger] ring[k], following(ring, k)) by {
        assert(is_link(links, dense[k] as int, next_in(dense, k) as int));
        assert(links_match(links, nodes, pairs, dense[k] as int));
        assert(following(ring, k) == nodes[next_in(dense, k) as int]);
    }
    let n = dense.len() as int;
    let start = dense[0] as int;
    assert(two_regular_at(links, start));
    assert(is_link(links, dense[n - 1] as int, next_in(dense, n - 1) as int));
    assert(two_regular_at(links, dense[n - 1] as int));
    assert(is_link(links, start, dense[n - 1] as int));
    assert(dense[1] != dense[n - 1]);
    assert(dense[n - 1] == links[start].1);
    assert(dense[1] < dense[n - 1]);
    assert(nodes[dense[1] as int] < nodes[dense[n - 1] as int]);
}

/// The rings of an edge list, where every node has exactly two neighbours.
#[verifier::loop_isolation(false)]
pub fn closed_rings(pairs: &Vec<(u32, u32)>) -> (r: Option<Vec<Vec<u32>>>)
    requires
        proper_pairs(pairs@),
    ensures
        match r {
            Some(rings) => closes(pairs@) && rings_through(rings@, pairs@),
            None => !closes(pairs@),
        },
{
    if pairs.len() == 0 {
        return None;
    }
    let nodes = endpoints(pairs);
    let links = match neighbour_links(pairs, &nodes) {
        Some(links) => links,
        None => {
            return None;
        },
    };
    proof {
        links_two_regular(links@, nodes@, pairs@);
        assert forall|node: u32| #[trigger] endpoint(pairs@, node) implies has_two(pairs@, node) by {
            assert(nodes@.contains(node));
            let i = choose|i: int| 0 <= i < nodes@.len() && nodes@[i] == node;
            assert(links_match(links@, nodes@, pairs@, i));
            assert(exactly_two(pairs@, node, nodes@[links@[i].0 as int], nodes@[links@[i].1 as int]));
        }
    }
    let dense = rings_of(&links);
    let mut rings: Vec<Vec<u32>> = Vec::new();
    let mut r: usize = 0;
    while r < dense.len()
        invariant
            r <= dense.len(),
            rings.len() == r,
            forall|s: int| 0 <= s < r ==> named((#[trigger] rings@[s])@, dense@[s]@, nodes@),
        decreases dense.len() - r,
    {
        assert(ring_at(links@, dense@[r as int]@));
        let mut ring: Vec<u32> = Vec::new();
        let mut k: usize = 0;
        while k < dense[r].len()
            invariant
                k <= dense@[r as int]@.len(),
                ring.len() == k,
                forall|m: int| 0 <= m < k ==> #[trigger] ring@[m] == nodes@[dense@[r as int]@[m] as int],
            decreases dense@[r as int]@.len() - k,
        {
            assert(dense@[r as int]@[k as int] < links@.len());
            ring.push(nodes[dense[r][k]]);
            k += 1;
        }
        rings.push(ring);
        r += 1;
    }
    proof {
        assert forall|s: int| 0 <= s < rings@.len() implies node_ring((#[trigger] rings@[s])@, pairs@) by {
            assert(named(rings@[s]@, dense@[s]@, nodes@));
            assert(ring_at(links@, dense@[s]@));
            named_ring(rings@[s]@, dense@[s]@, nodes@, links@, pairs@);
        }
        assert forall|node: u32| #[trigger] ringed(rings@, node) <==> endpoint(pairs@, node) by {
            if ringed(rings@, node) {
                let (s, k) = choose|s: int, k: int| 0 <= s < rings@.len() && 0 <= k < rings@[s]@.len() && #[trigger] rings@[s]@[k] == node;
                assert(named(rings@[s]@, dense@[s]@, nodes@));
                assert(ring_at(links@, dense@[s]@));
                assert(dense@[s]@[k] < links@.len());
                assert(nodes@.contains(nodes@[dense@[s]@[k] as int]));
            }
            if endpoint(pairs@, node) {
                assert(nodes@.contains(node));
                let i = choose|i: int| 0 <= i < nodes@.len() && nodes@[i] == node;
                assert(on_ring(dense@, i));
                let (s, k) = choose|s: int, k: int| 0 <= s < dense@.len() && 0 <= k < dense@[s]@.len() && #[trigger] dense@[s]@[k] == i;
                assert(named(rings@[s]@, dense@[s]@, nodes@));
                assert(rings@[s]@[k] == node);
            }
        }
        assert forall|s: int, t: int, k: int, l: int|
            #![trigger rings@[s]@[k], rings@[t]@[l]]
            0 <= s < rings@.len() && 0 <= t < rings@.len() && 0 <= k < rings@[s]@.len() && 0 <= l
                < rings@[t]@.len() && rings@[s]@[k] == rings@[t]@[l] implies s == t by {
            assert(named(rings@[s]@, dense@[s]@, nodes@) && named(rings@[t]@, dense@[t]@, nodes@));
            assert(ring_at(links@, dense@[s]@) && ring_at(links@, dense@[t]@));
            assert(dense@[s]@[k] < links@.len() && dense@[t]@[l] < links@.len());
            position_is_unique(nodes@, dense@[s]@[k] as int, dense@[t]@[l] as int);
        }
        assert forall|s: int, t: int| 0 <= s < t < rings@.len() implies #[trigger] rings@[s]@[0] < #[trigger] rings@[t]@[0] by {
            assert(named(rings@[s]@, dense@[s]@, nodes@) && named(rings@[t]@, dense@[t]@, nodes@));
            assert(ring_at(links@, dense@[s]@) && ring_at(links@, dense@[t]@));
            assert(dense@[s]@[0] < dense@[t]@[0]);
            assert(dense@[t]@[0] < links@.len());
        }
    }
    Some(rings)
}

/// The faces along every edge.
#[derive(Debug)]
pub struct EdgeTable {
    /// Owning faces by edge number.
    pub owners: Lists,
    /// The numbers of the edges that occur, ascending.
    pub keys: Vec<i128>,
}

impl EdgeTable {
    pub open spec fn describes(&self, faces: Seq<Face>) -> bool {
        &&& self.owners.well_formed()
        &&& forall|edge: (u32, u32)| #[trigger]
            self.owners.at(edge_number(edge)) == edge_owners(faces, edge)
        &&& crate::ordering::ascending_keys(self.keys@)
        &&& forall|k: int|
            0 <= k < self.keys@.len() ==> 0 <= #[trigger] self.keys@[k] <= u64::MAX && edge_uses(
                faces,
                edge_of(self.keys@[k]),
            ) > 0
        &&& forall|edge: (u32, u32)| #[trigger]
            edge_uses(faces, edge) > 0 ==> self.keys@.contains(edge_number(edge) as i128)
    }
}

pub open spec fn edge_of(key: i128) -> (u32, u32) {
    ((key / 0x1_0000_0000) as u32, (key % 0x1_0000_0000) as u32)
}

pub proof fn edge_of_number(edge: (u32, u32))
    ensures
        edge_of(edge_number(edge) as i128) == edge,
{
    let key = edge_number(edge) as int;
    assert(key / 0x1_0000_0000 == edge.0 as int && key % 0x1_0000_0000 == edge.1 as int) by (nonlinear_arith)
        requires
            key == edge.0 * 0x1_0000_0000 + edge.1,
            0 <= edge.1 < 0x1_0000_0000,
    ;
}

proof fn number_of_edge(key: i128)
    requires
        0 <= key <= u64::MAX,
    ensures
        edge_number(edge_of(key)) == key,
        0 <= key / 0x1_0000_0000 <= u32::MAX,
        0 <= key % 0x1_0000_0000 <= u32::MAX,
{
    let k = key as int;
    assert(k == (k / 0x1_0000_0000) * 0x1_0000_0000 + k % 0x1_0000_0000) by (nonlinear_arith);
    assert(0 <= k / 0x1_0000_0000 <= 0xffff_ffff) by (nonlinear_arith)
        requires
            0 <= k <= 0xffff_ffff_ffff_ffff,
    ;
}

fn edge_from_key(key: i128) -> (r: (u32, u32))
    requires
        0 <= key <= u64::MAX,
    ensures
        r == edge_of(key),
        edge_number(r) == key,
{
    proof {
        number_of_edge(key);
    }
    ((key / 0x1_0000_0000) as u32, (key % 0x1_0000_0000) as u32)
}

spec fn key_used(faces: Seq<Face>, done: int, part: int, key: i128) -> bool {
    exists|f: int, i: int|
        0 <= f < faces.len() && 0 <= i < faces[f].nodes@.len() && (f < done || (f == done && i < part)) && key
            == edge_number(#[trigger] perimeter_edge(faces[f].nodes@, i))
}

proof fn side_owner_exists(nodes: Seq<u32>, edge: (u32, u32), upto: int, face: usize)
    requires
        side_owners(nodes, edge, upto, face).len() > 0,
        upto <= nodes.len(),
    ensures
        exists|i: int| 0 <= i < upto && #[trigger] perimeter_edge(nodes, i) == edge,
    decreases upto,
{
    if upto > 0 {
        if perimeter_edge(nodes, upto - 1) != edge {
            side_owner_exists(nodes, edge, upto - 1, face);
            let i = choose|i: int| 0 <= i < upto - 1 && #[trigger] perimeter_edge(nodes, i) == edge;
            assert(perimeter_edge(nodes, i) == edge);
        }
    }
}

proof fn side_owner_counts(nodes: Seq<u32>, edge: (u32, u32), upto: int, face: usize, i: int)
    requires
        0 <= i < upto <= nodes.len(),
        perimeter_edge(nodes, i) == edge,
    ensures
        side_owners(nodes, edge, upto, face).len() > 0,
    decreases upto,
{
    if i < upto - 1 {
        side_owner_counts(nodes, edge, upto - 1, face, i);
    }
}

/// An edge has owners exactly where some face runs along it.
pub proof fn owned_edges(faces: Seq<Face>, edge: (u32, u32), upto: int)
    requires
        0 <= upto <= faces.len(),
    ensures
        owners(faces, edge, upto).len() > 0 <==> exists|f: int, i: int|
            0 <= f < upto && 0 <= i < faces[f].nodes@.len() && #[trigger] perimeter_edge(faces[f].nodes@, i) == edge,
    decreases upto,
{
    if upto > 0 {
        owned_edges(faces, edge, upto - 1);
        let nodes = faces[upto - 1].nodes@;
        let part = side_owners(nodes, edge, nodes.len() as int, (upto - 1) as usize);
        if owners(faces, edge, upto).len() > 0 {
            if owners(faces, edge, upto - 1).len() > 0 {
                let (f, i) = choose|f: int, i: int| 0 <= f < upto - 1 && 0 <= i < faces[f].nodes@.len() && #[trigger] perimeter_edge(faces[f].nodes@, i) == edge;
                assert(perimeter_edge(faces[f].nodes@, i) == edge);
            } else {
                side_owner_exists(nodes, edge, nodes.len() as int, (upto - 1) as usize);
                let i = choose|i: int| 0 <= i < nodes.len() && #[trigger] perimeter_edge(nodes, i) == edge;
                assert(perimeter_edge(faces[upto - 1].nodes@, i) == edge);
            }
        }
        if exists|f: int, i: int| 0 <= f < upto && 0 <= i < faces[f].nodes@.len() && #[trigger] perimeter_edge(faces[f].nodes@, i) == edge {
            let (f, i) = choose|f: int, i: int| 0 <= f < upto && 0 <= i < faces[f].nodes@.len() && #[trigger] perimeter_edge(faces[f].nodes@, i) == edge;
            if f == upto - 1 {
                side_owner_counts(nodes, edge, nodes.len() as int, (upto - 1) as usize, i);
            }
        }
    }
}

/// Tabulates which faces run along which edges.
#[verifier::spinoff_prover]
#[verifier::loop_isolation(false)]
pub fn edge_table(faces: &Vec<Face>) -> (table: EdgeTable)
    ensures
        table.describes(faces@),
{
    let mut lists = Lists::new();
    let mut raw: Vec<i128> = Vec::new();
    let mut f: usize = 0;
    while f < faces.len()
        invariant
            f <= faces.len(),
            lists.well_formed(),
            forall|edge: (u32, u32)| #[trigger] lists.at(edge_number(edge)) == owners(faces@, edge, f as int),
            forall|x: i128| #[trigger] raw@.contains(x) <==> key_used(faces@, f as int, 0, x),
        decreases faces.len() - f,
    {
        let ghost nodes = faces@[f as int].nodes@;
        let mut i: usize = 0;
        while i < faces[f].nodes.len()
            invariant
                i <= nodes.len(),
                lists.well_formed(),
                forall|edge: (u32, u32)| #[trigger] lists.at(edge_number(edge)) == owners(faces@, edge, f as int) + side_owners(nodes, edge, i as int, f),
                forall|x: i128| #[trigger] raw@.contains(x) <==> key_used(faces@, f as int, i as int, x),
            decreases nodes.len() - i,
        {
            let number: u64 = edge_number_at(&faces[f].nodes, i);
            let ghost here = perimeter_edge(nodes, i as int);
            let ghost before = lists;
            let ghost known = raw@;
            lists.push(number, f);
            raw.push(number as i128);
            proof {
                assert forall|edge: (u32, u32)| #[trigger] lists.at(edge_number(edge)) == owners(faces@, edge, f as int) + side_owners(nodes, edge, i + 1, f) by {
                    edge_number_injective(edge, here);
                    assert(before.at(edge_number(edge)) == owners(faces@, edge, f as int) + side_owners(nodes, edge, i as int, f));
                    if edge == here {
                        assert(lists.at(edge_number(edge)) =~= owners(faces@, edge, f as int) + side_owners(nodes, edge, i + 1, f));
                    }
                }
                assert forall|x: i128| #[trigger] raw@.contains(x) <==> key_used(faces@, f as int, i + 1, x) by {
                    assert(known.contains(x) <==> key_used(faces@, f as int, i as int, x));
                    if known.contains(x) {
                        let m = choose|m: int| 0 <= m < known.len() && known[m] == x;
                        assert(raw@[m] == x);
                        let (g, l) = choose|g: int, l: int|
                            0 <= g < faces@.len() && 0 <= l < faces@[g].nodes@.len() && (g < f || (g == f && l < i)) && x
                                == edge_number(#[trigger] perimeter_edge(faces@[g].nodes@, l));
                        assert(x == edge_number(perimeter_edge(faces@[g].nodes@, l)));
                    }
                    if raw@.contains(x) && !known.contains(x) {
                        let m = choose|m: int| 0 <= m < raw@.len() && raw@[m] == x;
                        if m < known.len() {
                            assert(known[m] == x);
                        }
                        assert(x == edge_number(perimeter_edge(faces@[f as int].nodes@, i as int)));
                    }
                    if key_used(faces@, f as int, i + 1, x) {
                        let (g, l) = choose|g: int, l: int|
                            0 <= g < faces@.len() && 0 <= l < faces@[g].nodes@.len() && (g < f || (g == f && l < i + 1)) && x
                                == edge_number(#[trigger] perimeter_edge(faces@[g].nodes@, l));
                        if g == f && l == i {
                            assert(raw@[raw@.len() - 1] == x);
                        } else {
                            assert(x == edge_number(perimeter_edge(faces@[g].nodes@, l)));
                            assert(key_used(faces@, f as int, i as int, x));
                        }
                    }
                }
            }
            i += 1;
        }
        proof {
            assert forall|x: i128| #[trigger] raw@.contains(x) <==> key_used(faces@, f + 1, 0, x) by {
                assert(raw@.contains(x) <==> key_used(faces@, f as int, i as int, x));
                if key_used(faces@, f as int, i as int, x) {
                    let (g, l) = choose|g: int, l: int|
                        0 <= g < faces@.len() && 0 <= l < faces@[g].nodes@.len() && (g < f || (g == f && l < i)) && x
                            == edge_number(#[trigger] perimeter_edge(faces@[g].nodes@, l));
                    assert(x == edge_number(perimeter_edge(faces@[g].nodes@, l)));
                }
                if key_used(faces@, f + 1, 0, x) {
                    let (g, l) = choose|g: int, l: int|
                        0 <= g < faces@.len() && 0 <= l < faces@[g].nodes@.len() && (g < f + 1 || (g == f + 1 && l < 0)) && x
                            == edge_number(#[trigger] perimeter_edge(faces@[g].nodes@, l));
                    assert(x == edge_number(perimeter_edge(faces@[g].nodes@, l)));
                }
            }
        }
        f += 1;
    }
    let ghost source = raw@;
    let keys = unique_keys(raw);
    let table = EdgeTable { owners: lists, keys };
    proof {
        assert forall|k: int| 0 <= k < table.keys@.len() implies 0 <= #[trigger] table.keys@[k] <= u64::MAX && edge_uses(faces@, edge_of(table.keys@[k])) > 0 by {
            let key = table.keys@[k];
            assert(table.keys@.contains(key));
            assert(source.contains(key));
            let (g, l) = choose|g: int, l: int|
                0 <= g < faces@.len() && 0 <= l < faces@[g].nodes@.len() && (g < f || (g == f && l < 0)) && key
                    == edge_number(#[trigger] perimeter_edge(faces@[g].nodes@, l));
            let edge = perimeter_edge(faces@[g].nodes@, l);
            edge_of_number(edge);
            owned_edges(faces@, edge, faces@.len() as int);
        }
        assert forall|edge: (u32, u32)| #[trigger] edge_uses(faces@, edge) > 0 implies table.keys@.contains(edge_number(edge) as i128) by {
            owned_edges(faces@, edge, faces@.len() as int);
            let (g, l) = choose|g: int, l: int| 0 <= g < faces@.len() && 0 <= l < faces@[g].nodes@.len() && #[trigger] perimeter_edge(faces@[g].nodes@, l) == edge;
            assert(edge_number(edge) as i128 == edge_number(perimeter_edge(faces@[g].nodes@, l)));
            assert(key_used(faces@, f as int, 0, edge_number(edge) as i128));
        }
    }
    table
}

/// The boundary edges as a pair list.
pub open spec fn boundary_pairs(pairs: Seq<(u32, u32)>, faces: Seq<Face>) -> bool {
    &&& proper_pairs(pairs)
    &&& forall|edge: (u32, u32)| #[trigger] pairs.contains(edge) <==> boundary_edge(faces, edge)
}

/// An edge that some face runs along joins two different nodes, smaller first.
pub proof fn owned_edge_is_proper(faces: Seq<Face>, edge: (u32, u32))
    requires
        simple_faces(faces),
        edge_uses(faces, edge) > 0,
    ensures
        edge.0 < edge.1,
{
    owned_edges(faces, edge, faces.len() as int);
    let (f, i) = choose|f: int, i: int| 0 <= f < faces.len() && 0 <= i < faces[f].nodes@.len() && #[trigger] perimeter_edge(faces[f].nodes@, i) == edge;
    let nodes = faces[f].nodes@;
    assert(simple_face(nodes));
    let j = if i + 1 < nodes.len() { i + 1 } else { 0 };
    assert(nodes[i] != nodes[j]);
}

/// The edges with one owner, each once. A side from a node to itself is one of them.
pub open spec fn open_pairs(pairs: Seq<(u32, u32)>, faces: Seq<Face>) -> bool {
    &&& pairs.no_duplicates()
    &&& forall|edge: (u32, u32)| #[trigger] pairs.contains(edge) <==> boundary_edge(faces, edge)
}

/// Lists the edges with one owner, or `None` where an edge has more than two.
#[verifier::loop_isolation(false)]
pub fn open_edges(faces: &Vec<Face>, table: &EdgeTable) -> (r: Option<Vec<(u32, u32)>>)
    requires
        table.describes(faces@),
    ensures
        match r {
            Some(pairs) => manifold(faces@) && open_pairs(pairs@, faces@),
            None => !manifold(faces@),
        },
{
    let mut pairs: Vec<(u32, u32)> = Vec::new();
    let mut k: usize = 0;
    while k < table.keys.len()
        invariant
            k <= table.keys.len(),
            forall|m: int| 0 <= m < k ==> edge_uses(faces@, edge_of(#[trigger] table.keys@[m])) <= 2,
            pairs@.no_duplicates(),
            forall|m: int| 0 <= m < pairs.len() ==> boundary_edge(faces@, #[trigger] pairs@[m]) && (k < table.keys@.len() ==> edge_number(pairs@[m]) < table.keys@[k as int]),
            forall|m: int| 0 <= m < k && boundary_edge(faces@, edge_of(#[trigger] table.keys@[m])) ==> pairs@.contains(edge_of(table.keys@[m])),
        decreases table.keys.len() - k,
    {
        let key: i128 = table.keys[k];
        assert(0 <= table.keys@[k as int] <= u64::MAX);
        let edge = edge_from_key(key);
        let count: usize = table.owners.get(key as u64).len();
        assert(table.owners.at(edge_number(edge)) == edge_owners(faces@, edge));
        assert(count == edge_uses(faces@, edge));
        if count > 2 {
            return None;
        }
        let ghost before = pairs@;
        if count == 1 {
            pairs.push(edge);
            proof {
                assert(pairs@[pairs.len() - 1] == edge);
                assert forall|i: int, j: int| 0 <= i < pairs@.len() && 0 <= j < pairs@.len() && i != j implies pairs@[i] != pairs@[j] by {
                    if i < before.len() && j < before.len() {
                        assert(before[i] != before[j]);
                    } else if i < before.len() {
                        assert(edge_number(before[i]) < key);
                    } else {
                        assert(edge_number(before[j]) < key);
                    }
                }
            }
        }
        proof {
            assert forall|x: (u32, u32)| before.contains(x) implies #[trigger] pairs@.contains(x) by {
                let m = choose|m: int| 0 <= m < before.len() && before[m] == x;
                assert(pairs@[m] == x);
            }
            assert forall|m: int| 0 <= m < pairs.len() implies boundary_edge(faces@, #[trigger] pairs@[m]) && (k + 1 < table.keys@.len() ==> edge_number(pairs@[m]) < table.keys@[k + 1]) by {
                if k + 1 < table.keys@.len() {
                    assert(table.keys@[k as int] < table.keys@[k + 1]);
                }
                if m < before.len() {
                    assert(pairs@[m] == before[m]);
                }
            }
            assert forall|m: int| 0 <= m < k + 1 && boundary_edge(faces@, edge_of(#[trigger] table.keys@[m])) implies pairs@.contains(edge_of(table.keys@[m])) by {
                if m == k {
                    assert(pairs@[pairs@.len() - 1] == edge);
                }
            }
        }
        k += 1;
    }
    proof {
        assert forall|edge: (u32, u32)| #[trigger] edge_uses(faces@, edge) <= 2 by {
            if edge_uses(faces@, edge) > 0 {
                let key = edge_number(edge) as i128;
                assert(table.keys@.contains(key));
                let m = choose|m: int| 0 <= m < table.keys@.len() && table.keys@[m] == key;
                edge_of_number(edge);
                assert(edge_uses(faces@, edge_of(table.keys@[m])) <= 2);
            }
        }
        assert forall|edge: (u32, u32)| #[trigger] pairs@.contains(edge) <==> boundary_edge(faces@, edge) by {
            if pairs@.contains(edge) {
                let m = choose|m: int| 0 <= m < pairs@.len() && pairs@[m] == edge;
                assert(boundary_edge(faces@, pairs@[m]));
            }
            if boundary_edge(faces@, edge) {
                assert(edge_uses(faces@, edge) > 0);
                let key = edge_number(edge) as i128;
                assert(table.keys@.contains(key));
                let m = choose|m: int| 0 <= m < table.keys@.len() && table.keys@[m] == key;
                edge_of_number(edge);
                assert(boundary_edge(faces@, edge_of(table.keys@[m])));
            }
        }
    }
    Some(pairs)
}

/// Whether the open edges of the faces close to rings without branching.
pub open spec fn boundary_closes(faces: Seq<Face>) -> bool {
    forall|pairs: Seq<(u32, u32)>| #[trigger] boundary_pairs(pairs, faces) ==> closes(pairs)
}

pub open spec fn boundary_rings(rings: Seq<Vec<u32>>, faces: Seq<Face>) -> bool {
    exists|pairs: Seq<(u32, u32)>| #[trigger]
        boundary_pairs(pairs, faces) && closes(pairs) && rings_through(rings, pairs)
}

proof fn closes_is_a_set_property(a: Seq<(u32, u32)>, b: Seq<(u32, u32)>)
    requires
        closes(a),
        forall|edge: (u32, u32)| #[trigger] a.contains(edge) <==> #[trigger] b.contains(edge),
    ensures
        closes(b),
{
    assert(a.contains(a[0]));
    assert(b.contains(a[0]));
    assert forall|node: u32| #[trigger] endpoint(b, node) implies has_two(b, node) by {
        let k = choose|k: int| 0 <= k < b.len() && ((#[trigger] b[k]).0 == node || b[k].1 == node);
        assert(b.contains(b[k]));
        assert(a.contains(b[k]));
        let m = choose|m: int| 0 <= m < a.len() && a[m] == b[k];
        assert(a[m].0 == node || a[m].1 == node);
        assert(endpoint(a, node));
        let (x, y) = choose|x: u32, y: u32| exactly_two(a, node, x, y);
        assert forall|z: u32| #[trigger] neighbours(b, node, z) <==> z == x || z == y by {
            assert(neighbours(a, node, z) <==> z == x || z == y);
            assert(a.contains(ordered_pair(node, z)) <==> b.contains(ordered_pair(node, z)));
        }
        assert(exactly_two(b, node, x, y));
    }
}

/// The boundary of a set of faces: its rings, or why there are none.
pub fn boundary(faces: &Vec<Face>) -> (r: Result<Vec<Vec<u32>>, &'static str>)
    requires
        simple_faces(faces@),
    ensures
        match r {
            Ok(rings) => manifold(faces@) && boundary_rings(rings@, faces@),
            Err(reason) => if manifold(faces@) {
                reason@ == "ambiguous_boundary"@ && !boundary_closes(faces@)
            } else {
                reason@ == "nonmanifold_source_edges"@
            },
        },
{
    let table = edge_table(faces);
    match open_edges(faces, &table) {
        None => Err("nonmanifold_source_edges"),
        Some(pairs) => {
            proof {
                assert forall|k: int| 0 <= k < pairs@.len() implies (#[trigger] pairs@[k]).0 < pairs@[k].1 by {
                    assert(pairs@.contains(pairs@[k]));
                    owned_edge_is_proper(faces@, pairs@[k]);
                }
                assert(boundary_pairs(pairs@, faces@));
            }
            match closed_rings(&pairs) {
                Some(rings) => Ok(rings),
                None => {
                    proof {
                        if boundary_closes(faces@) {
                            assert(closes(pairs@));
                        }
                    }
                    Err("ambiguous_boundary")
                },
            }
        },
    }
}

/// Whether a boundary is found depends on the faces alone: where one listing of
/// the open edges closes, every listing does.
pub proof fn boundary_found(rings: Seq<Vec<u32>>, faces: Seq<Face>)
    requires
        boundary_rings(rings, faces),
    ensures
        boundary_closes(faces),
{
    let pairs = choose|pairs: Seq<(u32, u32)>| #[trigger]
        boundary_pairs(pairs, faces) && closes(pairs) && rings_through(rings, pairs);
    assert forall|other: Seq<(u32, u32)>| #[trigger] boundary_pairs(other, faces) implies closes(other) by {
        assert forall|edge: (u32, u32)| #[trigger] pairs.contains(edge) <==> #[trigger] other.contains(edge) by {
            assert(pairs.contains(edge) <==> boundary_edge(faces, edge));
            assert(other.contains(edge) <==> boundary_edge(faces, edge));
        }
        closes_is_a_set_property(pairs, other);
    }
}

/// More than two edges of the list meet at the node.
pub open spec fn branches(pairs: Seq<(u32, u32)>, node: u32) -> bool {
    exists|x: u32, y: u32, z: u32| #[trigger] three_neighbours(pairs, node, x, y, z)
}

pub open spec fn three_neighbours(pairs: Seq<(u32, u32)>, node: u32, x: u32, y: u32, z: u32) -> bool {
    x < y && y < z && neighbours(pairs, node, x) && neighbours(pairs, node, y) && neighbours(pairs, node, z)
}

proof fn sorted_three(pairs: Seq<(u32, u32)>, node: u32, a: u32, b: u32, c: u32)
    requires
        a != b,
        b != c,
        a != c,
        neighbours(pairs, node, a),
        neighbours(pairs, node, b),
        neighbours(pairs, node, c),
    ensures
        branches(pairs, node),
{
    if a < b && b < c {
        assert(three_neighbours(pairs, node, a, b, c));
    } else if a < c && c < b {
        assert(three_neighbours(pairs, node, a, c, b));
    } else if b < a && a < c {
        assert(three_neighbours(pairs, node, b, a, c));
    } else if b < c && c < a {
        assert(three_neighbours(pairs, node, b, c, a));
    } else if c < a && a < b {
        assert(three_neighbours(pairs, node, c, a, b));
    } else {
        assert(three_neighbours(pairs, node, c, b, a));
    }
}

proof fn three_members(list: Seq<usize>, p: usize, q: usize, r: usize)
    requires
        list.no_duplicates(),
        p != q,
        q != r,
        p != r,
        list.contains(p),
        list.contains(q),
        list.contains(r),
    ensures
        list.len() >= 3,
{
    let i = choose|i: int| 0 <= i < list.len() && list[i] == p;
    let j = choose|j: int| 0 <= j < list.len() && list[j] == q;
    let k = choose|k: int| 0 <= k < list.len() && list[k] == r;
    assert(i != j && j != k && i != k);
}

/// The nodes at which more than two listed edges meet, ascending.
#[verifier::loop_isolation(false)]
pub fn branch_nodes(pairs: &Vec<(u32, u32)>) -> (r: Vec<u32>)
    requires
        proper_pairs(pairs@),
    ensures
        ascending(r@),
        forall|node: u32| #[trigger] r@.contains(node) <==> branches(pairs@, node),
{
    let nodes = endpoints(pairs);
    let lists = adjacency_lists(pairs, &nodes);
    assert(pairs@.take(pairs@.len() as int) =~= pairs@);
    let mut r: Vec<u32> = Vec::new();
    let mut i: usize = 0;
    while i < nodes.len()
        invariant
            i <= nodes.len(),
            ascending(r@),
            forall|m: int| 0 <= m < r.len() ==> branches(pairs@, #[trigger] r@[m]) && (i < nodes@.len() ==> r@[m] < nodes@[i as int]),
            forall|m: int| 0 <= m < i && branches(pairs@, #[trigger] nodes@[m]) ==> r@.contains(nodes@[m]),
        decreases nodes.len() - i,
    {
        let ghost node = nodes@[i as int];
        let list = lists.get(nodes[i] as u64);
        let ghost before = r@;
        assert(list@.no_duplicates());
        assert forall|j: usize| #[trigger] list@.contains(j) <==> j < nodes@.len() && neighbours(pairs@, node, nodes@[j as int]) by {
            assert(lists.at(nodes@[i as int] as u64).contains(j) <==> j < nodes@.len() && neighbours(pairs@.take(pairs@.len() as int), nodes@[i as int], nodes@[j as int]));
        }
        proof {
            if list@.len() > 2 {
                assert(list@.contains(list@[0]) && list@.contains(list@[1]) && list@.contains(list@[2]));
                assert(list@[0] != list@[1] && list@[1] != list@[2] && list@[0] != list@[2]);
                let a = nodes@[list@[0] as int];
                let b = nodes@[list@[1] as int];
                let c = nodes@[list@[2] as int];
                if a == b {
                    position_is_unique(nodes@, list@[0] as int, list@[1] as int);
                }
                if b == c {
                    position_is_unique(nodes@, list@[1] as int, list@[2] as int);
                }
                if a == c {
                    position_is_unique(nodes@, list@[0] as int, list@[2] as int);
                }
                sorted_three(pairs@, node, a, b, c);
            }
            if branches(pairs@, node) {
                let (x, y, z) = choose|x: u32, y: u32, z: u32| #[trigger] three_neighbours(pairs@, node, x, y, z);
                neighbour_is_endpoint(pairs@, node, x);
                neighbour_is_endpoint(pairs@, node, y);
                neighbour_is_endpoint(pairs@, node, z);
                assert(nodes@.contains(x) && nodes@.contains(y) && nodes@.contains(z));
                let p = choose|p: int| 0 <= p < nodes@.len() && nodes@[p] == x;
                let q = choose|q: int| 0 <= q < nodes@.len() && nodes@[q] == y;
                let w = choose|w: int| 0 <= w < nodes@.len() && nodes@[w] == z;
                assert(list@.contains(p as usize) && list@.contains(q as usize) && list@.contains(w as usize));
                three_members(list@, p as usize, q as usize, w as usize);
            }
        }
        if list.len() > 2 {
            r.push(nodes[i]);
            assert(r@[r.len() - 1] == node);
        }
        proof {
            assert forall|x: u32| before.contains(x) implies #[trigger] r@.contains(x) by {
                let m = choose|m: int| 0 <= m < before.len() && before[m] == x;
                assert(r@[m] == x);
            }
            assert forall|m: int| 0 <= m < r.len() implies branches(pairs@, #[trigger] r@[m]) && (i + 1 < nodes@.len() ==> r@[m] < nodes@[i + 1]) by {
                if i + 1 < nodes@.len() {
                    assert(nodes@[i as int] < nodes@[i + 1]);
                }
                if m < before.len() {
                    assert(before[m] == r@[m]);
                }
            }
        }
        i += 1;
    }
    proof {
        assert forall|node: u32| #[trigger] r@.contains(node) <==> branches(pairs@, node) by {
            if r@.contains(node) {
                let m = choose|m: int| 0 <= m < r@.len() && r@[m] == node;
                assert(branches(pairs@, r@[m]));
            }
            if branches(pairs@, node) {
                let (x, y, z) = choose|x: u32, y: u32, z: u32| #[trigger] three_neighbours(pairs@, node, x, y, z);
                neighbour_is_endpoint(pairs@, x, node);
                assert(ordered_pair(x, node) == ordered_pair(node, x));
                assert(nodes@.contains(node));
                let m = choose|m: int| 0 <= m < nodes@.len() && nodes@[m] == node;
                assert(branches(pairs@, nodes@[m]));
            }
        }
    }
    r
}

pub(crate) proof fn neighbour_is_endpoint(pairs: Seq<(u32, u32)>, a: u32, b: u32)
    requires
        neighbours(pairs, a, b) || neighbours(pairs, b, a),
    ensures
        endpoint(pairs, b),
{
    assert(ordered_pair(a, b) == ordered_pair(b, a));
    let m = choose|m: int| 0 <= m < pairs.len() && pairs[m] == ordered_pair(a, b);
    assert(pairs[m].0 == b || pairs[m].1 == b);
}

proof fn sides_own(nodes: Seq<u32>, edge: (u32, u32), upto: int, face: usize)
    requires
        0 <= upto <= nodes.len(),
    ensures
        side_owners(nodes, edge, upto, face).len() == Seq::new(upto as nat, |i: int| perimeter_edge(nodes, i)).filter(
            |other: (u32, u32)| other == edge,
        ).len(),
        forall|k: int| 0 <= k < side_owners(nodes, edge, upto, face).len() ==> #[trigger] side_owners(nodes, edge, upto, face)[k] == face,
    decreases upto,
{
    reveal(Seq::filter);
    if upto > 0 {
        sides_own(nodes, edge, upto - 1, face);
        let all = Seq::new(upto as nat, |i: int| perimeter_edge(nodes, i));
        assert(all.drop_last() =~= Seq::new((upto - 1) as nat, |i: int| perimeter_edge(nodes, i)));
        assert(all.last() == perimeter_edge(nodes, upto - 1));
    }
}

/// Every owner of an edge is a face that runs along it.
pub proof fn owners_run_along_the_edge(faces: Seq<Face>, edge: (u32, u32), upto: int, k: int)
    requires
        0 <= upto <= faces.len() <= usize::MAX,
        0 <= k < owners(faces, edge, upto).len(),
    ensures
        owners(faces, edge, upto)[k] < upto,
        exists|i: int|
            0 <= i < faces[owners(faces, edge, upto)[k] as int].nodes@.len() && #[trigger] perimeter_edge(
                faces[owners(faces, edge, upto)[k] as int].nodes@,
                i,
            ) == edge,
    decreases upto,
{
    if upto > 0 {
        let rest = owners(faces, edge, upto - 1);
        let nodes = faces[upto - 1].nodes@;
        let face = (upto - 1) as usize;
        let n = nodes.len() as int;
        sides_own(nodes, edge, n, face);
        if k < rest.len() {
            owners_run_along_the_edge(faces, edge, upto - 1, k);
            assert(owners(faces, edge, upto)[k] == rest[k]);
        } else {
            assert(owners(faces, edge, upto)[k] == side_owners(nodes, edge, n, face)[k - rest.len()]);
            let all = Seq::new(n as nat, |i: int| perimeter_edge(nodes, i));
            let pred = |other: (u32, u32)| other == edge;
            assert(all.filter(pred).len() > 0);
            let found = all.filter(pred)[0];
            all.lemma_filter_pred(pred, 0);
            assert(all.filter(pred).contains(found));
            all.lemma_filter_contains_rev(pred, found);
            let i = choose|i: int| 0 <= i < all.len() && all[i] == found;
            assert(perimeter_edge(nodes, i) == edge);
        }
    }
}

/// A pair is the same whichever node is named first, and its first node is not the greater.
pub proof fn pairs_have_one_order(a: u32, b: u32)
    ensures
        ordered_pair(a, b) == ordered_pair(b, a),
        ordered_pair(a, b).0 <= ordered_pair(a, b).1,
        (ordered_pair(a, b).0 == a && ordered_pair(a, b).1 == b) || (ordered_pair(a, b).0 == b && ordered_pair(a, b).1 == a),
{
}

/// Boundary rings run along edges with one face, from node to node and back to the first; they
/// start at their least node towards its smaller neighbour.
pub proof fn rings_run_along_open_edges(rings: Seq<Vec<u32>>, faces: Seq<Face>, r: int, k: int)
    requires
        boundary_rings(rings, faces),
        0 <= r < rings.len(),
        0 <= k < rings[r]@.len(),
    ensures
        rings[r]@.len() >= 3,
        edge_uses(faces, ordered_pair(rings[r]@[k], rings[r]@[if k + 1 < rings[r]@.len() { k + 1 } else { 0 }])) == 1,
        rings[r]@[0] <= rings[r]@[k],
        rings[r]@[1] < rings[r]@[rings[r]@.len() - 1],
{
    let pairs = choose|pairs: Seq<(u32, u32)>| #[trigger]
        boundary_pairs(pairs, faces) && closes(pairs) && rings_through(rings, pairs);
    assert(node_ring(rings[r]@, pairs));
    let edge = ordered_pair(rings[r]@[k], following(rings[r]@, k));
    assert(neighbours(pairs, rings[r]@[k], following(rings[r]@, k)));
    assert(pairs.contains(edge));
    assert(boundary_edge(faces, edge));
}

/// Both nodes of an edge with one face lie on a ring.
pub proof fn open_edges_are_ringed(rings: Seq<Vec<u32>>, faces: Seq<Face>, edge: (u32, u32))
    requires
        boundary_rings(rings, faces),
        edge_uses(faces, edge) == 1,
    ensures
        ringed(rings, edge.0),
        ringed(rings, edge.1),
{
    let pairs = choose|pairs: Seq<(u32, u32)>| #[trigger]
        boundary_pairs(pairs, faces) && closes(pairs) && rings_through(rings, pairs);
    assert(boundary_edge(faces, edge));
    assert(pairs.contains(edge));
    let k = choose|k: int| 0 <= k < pairs.len() && pairs[k] == edge;
    assert(pairs[k].0 == edge.0);
    assert(endpoint(pairs, edge.0));
    assert(endpoint(pairs, edge.1));
}

} // verus!
