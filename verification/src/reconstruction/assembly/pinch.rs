//! Regions whose boundary touches itself at a node.
use vstd::prelude::*;
use crate::connectivity::{answered_groups, answered_relation, component_inside, components_of, components_total, components_unique, connected, in_some_group, joined_groups, label_pairs, same_relation, share_label, touch};
use crate::ordering::{ascending, ascending_indices, copy_ids, find_id, key_before, lists_distinct, sorted_indices, unique};
use crate::reconstruction::assembly::boundary::{boundary_edge, branch_nodes, branches, edge_table, edge_uses, endpoint, endpoints, manifold, neighbour_is_endpoint, neighbours, open_edges, open_pairs, ordered_pair, owners, proper_pairs, side_owners, three_neighbours, Face};
use crate::reconstruction::planes::{edge_labels, share_edge, shared_labels_are_edges};

verus! {

pub open spec fn ids_of(faces: Seq<Face>) -> Seq<u32> {
    faces.map_values(|face: Face| face.id)
}

/// A boundary edge joins the two nodes.
pub open spec fn open_between(faces: Seq<Face>, a: u32, b: u32) -> bool {
    boundary_edge(faces, ordered_pair(a, b))
}

pub open spec fn three_open(faces: Seq<Face>, node: u32, x: u32, y: u32, z: u32) -> bool {
    x < y && y < z && open_between(faces, node, x) && open_between(faces, node, y) && open_between(faces, node, z)
}

/// More than two ends of boundary edges of the faces meet at the node. A side from the
/// node to itself has two of them.
pub open spec fn pinched(faces: Seq<Face>, node: u32) -> bool {
    ||| exists|x: u32, y: u32, z: u32| #[trigger] three_open(faces, node, x, y, z)
    ||| open_between(faces, node, node) && exists|x: u32| x != node && #[trigger] open_between(faces, node, x)
}

/// Nothing is to be opened: an edge has too many owners, or no node is pinched.
pub open spec fn settled(faces: Seq<Face>) -> bool {
    !manifold(faces) || forall|node: u32| !#[trigger] pinched(faces, node)
}

/// A face with these nodes touches a pinched node.
pub open spec fn at_pinch(faces: Seq<Face>, nodes: Seq<u32>) -> bool {
    exists|k: int| 0 <= k < nodes.len() && pinched(faces, #[trigger] nodes[k])
}

/// Faces that stay together: they share an edge and are both at a pinched node
/// of the region or both away from any.
pub open spec fn fan(faces: Seq<Face>, sorted: Seq<Face>) -> spec_fn(int, int) -> bool {
    |a: int, b: int|
        0 <= a < b < sorted.len() && share_edge(sorted[a].nodes@, sorted[b].nodes@) && (at_pinch(
            faces,
            sorted[a].nodes@,
        ) <==> at_pinch(faces, sorted[b].nodes@))
}

/// The face is one of those given.
pub open spec fn listed(faces: Seq<Face>, face: Face) -> bool {
    exists|f: int| 0 <= f < faces.len() && (#[trigger] faces[f]).id == face.id && faces[f].nodes@ == face.nodes@
}

/// The faces by ascending number, each number once.
pub open spec fn by_number(sorted: Seq<Face>, faces: Seq<Face>) -> bool {
    &&& lists_distinct(ids_of(sorted), ids_of(faces))
    &&& forall|k: int| 0 <= k < sorted.len() ==> listed(faces, #[trigger] sorted[k])
}

pub open spec fn chosen(faces: Seq<Face>, group: Seq<usize>) -> Seq<Face> {
    Seq::new(group.len(), |k: int| faces[group[k] as int])
}

pub open spec fn joined_pieces(pieces: Seq<Seq<Seq<u32>>>, upto: int) -> Seq<Seq<u32>>
    decreases upto,
{
    if upto <= 0 {
        Seq::empty()
    } else {
        joined_pieces(pieces, upto - 1) + pieces[upto - 1]
    }
}

pub open spec fn opens_into(
    faces: Seq<Face>,
    sorted: Seq<Face>,
    groups: Seq<Vec<usize>>,
    pieces: Seq<Seq<Seq<u32>>>,
    parts: Seq<Seq<u32>>,
) -> bool {
    &&& by_number(sorted, faces)
    &&& components_of(groups, sorted.len() as int, fan(faces, sorted))
    &&& if groups.len() <= 1 {
        parts == seq![ids_of(sorted)]
    } else {
        pieces.len() == groups.len() && parts == joined_pieces(pieces, groups.len() as int)
    }
}

/// Each group is treated in the same way as the whole.
pub open spec fn pieces_split(
    faces: Seq<Face>,
    sorted: Seq<Face>,
    groups: Seq<Vec<usize>>,
    pieces: Seq<Seq<Seq<u32>>>,
) -> bool
    decreases faces.len(), 0int,
{
    forall|g: int|
        0 <= g < groups.len() ==> (#[trigger] groups[g])@.len() < faces.len() && splits(
            chosen(sorted, groups[g]@),
            pieces[g],
        )
}

/// A settled region stays whole and in its given order. Any other is taken by
/// ascending number and divided into the fans at its pinched nodes and the rest,
/// by their least numbers, and each of these is treated in the same way.
pub open spec fn splits(faces: Seq<Face>, parts: Seq<Seq<u32>>) -> bool
    decreases faces.len(), 1int,
{
    if settled(faces) {
        parts == seq![ids_of(faces)]
    } else {
        exists|sorted: Seq<Face>, groups: Seq<Vec<usize>>, pieces: Seq<Seq<Seq<u32>>>| #[trigger]
            opens_into(faces, sorted, groups, pieces, parts) && (groups.len() > 1 ==> pieces_split(
                faces,
                sorted,
                groups,
                pieces,
            ))
    }
}

pub open spec fn views(parts: Seq<Vec<u32>>) -> Seq<Seq<u32>> {
    parts.map_values(|part: Vec<u32>| part@)
}

spec fn bucket(faces: Seq<Face>, labels: Seq<usize>, from: int, g: usize) -> Seq<Face>
    decreases faces.len() - from,
{
    if from >= faces.len() {
        Seq::empty()
    } else if labels[from] == g {
        bucket(faces, labels, from + 1, g).push(faces[from])
    } else {
        bucket(faces, labels, from + 1, g)
    }
}

spec fn labels_match(labels: Seq<usize>, groups: Seq<Vec<usize>>) -> bool {
    &&& forall|g: int, k: int|
        0 <= g < groups.len() && 0 <= k < groups[g]@.len() ==> #[trigger] groups[g]@[k] < labels.len()
            && labels[groups[g]@[k] as int] == g
    &&& forall|i: int| 0 <= i < labels.len() ==> #[trigger] labels[i] < groups.len() && in_some_group(groups, i)
}

#[verifier::loop_isolation(false)]
fn group_labels(n: usize, groups: &Vec<Vec<usize>>, Ghost(rel): Ghost<spec_fn(int, int) -> bool>) -> (labels: Vec<usize>)
    requires
        components_of(groups@, n as int, rel),
    ensures
        labels.len() == n,
        labels_match(labels@, groups@),
{
    let mut labels: Vec<usize> = Vec::new();
    let mut i: usize = 0;
    while i < n
        invariant
            i <= n,
            labels.len() == i,
        decreases n - i,
    {
        labels.push(0);
        i += 1;
    }
    let mut g: usize = 0;
    while g < groups.len()
        invariant
            g <= groups.len(),
            labels.len() == n,
            forall|h: int, k: int|
                0 <= h < g && 0 <= k < groups@[h]@.len() ==> labels@[#[trigger] groups@[h]@[k] as int] == h,
        decreases groups.len() - g,
    {
        let mut k: usize = 0;
        while k < groups[g].len()
            invariant
                k <= groups@[g as int]@.len(),
                labels.len() == n,
                forall|h: int, l: int|
                    0 <= h < groups.len() && 0 <= l < groups@[h]@.len() && (h < g || (h == g && l < k)) ==> labels@[#[trigger] groups@[h]@[l] as int] == h,
            decreases groups@[g as int]@.len() - k,
        {
            let member: usize = groups[g][k];
            assert(groups@[g as int]@[k as int] < n);
            let ghost before = labels@;
            labels.set(member, g);
            proof {
                assert forall|h: int, l: int|
                    0 <= h < groups.len() && 0 <= l < groups@[h]@.len() && (h < g || (h == g && l < k + 1)) implies labels@[#[trigger] groups@[h]@[l] as int] == h by {
                    assert(groups@[h]@[l] < n);
                    if groups@[h]@[l] == member {
                        crate::connectivity::connected_reflexive(n as int, rel, member as int);
                        assert(crate::connectivity::connected(n as int, rel, groups@[h]@[l] as int, groups@[g as int]@[k as int] as int));
                    } else {
                        assert(h < g || l < k);
                        assert(labels@[groups@[h]@[l] as int] == before[groups@[h]@[l] as int]);
                    }
                }
            }
            k += 1;
        }
        g += 1;
    }
    proof {
        assert forall|i: int| 0 <= i < labels@.len() implies #[trigger] labels@[i] < groups@.len() && in_some_group(groups@, i) by {
            assert(in_some_group(groups@, i));
            let (h, l) = choose|h: int, l: int| 0 <= h < groups@.len() && 0 <= l < groups@[h]@.len() && #[trigger] groups@[h]@[l] == i;
            assert(labels@[groups@[h]@[l] as int] == h);
        }
    }
    labels
}

spec fn tail_of_group(group: Seq<usize>, from: int) -> int
    decreases group.len(),
{
    if group.len() == 0 || group.last() < from {
        group.len() as int
    } else {
        tail_of_group(group.drop_last(), from)
    }
}

/// The bucket of a group holds its faces, last one first.
proof fn bucket_reverses(faces: Seq<Face>, labels: Seq<usize>, groups: Seq<Vec<usize>>, g: int, from: int)
    requires
        labels.len() == faces.len(),
        faces.len() <= usize::MAX,
        labels_match(labels, groups),
        groups.len() <= usize::MAX,
        0 <= g < groups.len(),
        crate::ordering::ascending_indices(groups[g]@),
        0 <= from <= faces.len(),
    ensures
        ({
            let t = tail_of_group(groups[g]@, from);
            &&& 0 <= t <= groups[g]@.len()
            &&& forall|k: int| 0 <= k < t ==> #[trigger] groups[g]@[k] < from
            &&& forall|k: int| t <= k < groups[g]@.len() ==> #[trigger] groups[g]@[k] >= from
            &&& bucket(faces, labels, from, g as usize) == chosen(faces, groups[g]@.skip(t)).reverse()
        }),
    decreases faces.len() - from,
{
    let group = groups[g]@;
    let t = tail_of_group(group, from);
    tail_bounds(group, from);
    if from == faces.len() {
        assert(t == group.len()) by {
            if t < group.len() {
                assert(group[t] >= from);
                assert(groups[g]@[t] < labels.len());
            }
        }
        assert(chosen(faces, group.skip(t)).reverse() =~= Seq::<Face>::empty());
    } else {
        bucket_reverses(faces, labels, groups, g, from + 1);
        let t1 = tail_of_group(group, from + 1);
        if labels[from] == g {
            assert(in_some_group(groups, from));
            let (h, l) = choose|h: int, l: int| 0 <= h < groups.len() && 0 <= l < groups[h]@.len() && #[trigger] groups[h]@[l] == from;
            assert(labels[groups[h]@[l] as int] == h);
            assert(group[l] == from);
            assert(l < t1);
            assert(l >= t);
            assert(t1 == l + 1) by {
                if l + 1 < t1 {
                    assert(group[l + 1] < from + 1);
                    assert(group[l] < group[l + 1]);
                }
            }
            assert(t == l) by {
                if t < l {
                    assert(group[t] >= from);
                    assert(group[t] < group[l]);
                }
            }
            let long = chosen(faces, group.skip(t));
            let short = chosen(faces, group.skip(t1));
            assert(long =~= seq![faces[from]] + short);
            assert(long.reverse() =~= short.reverse().push(faces[from]));
        } else {
            assert(t == t1) by {
                if t < t1 {
                    assert(group[t] >= from && group[t] < from + 1);
                    assert(labels[groups[g]@[t] as int] == g);
                }
                if t1 < t {
                    assert(group[t1] >= from + 1 && group[t1] < from);
                }
            }
        }
    }
}

proof fn tail_bounds(group: Seq<usize>, from: int)
    requires
        crate::ordering::ascending_indices(group),
    ensures
        0 <= tail_of_group(group, from) <= group.len(),
        forall|k: int| 0 <= k < tail_of_group(group, from) ==> #[trigger] group[k] < from,
        forall|k: int| tail_of_group(group, from) <= k < group.len() ==> #[trigger] group[k] >= from,
    decreases group.len(),
{
    if group.len() > 0 {
        if group.last() < from {
            assert forall|k: int| 0 <= k < group.len() implies #[trigger] group[k] < from by {
                if k < group.len() - 1 {
                    assert(group[k] < group[group.len() - 1]);
                }
            }
        } else {
            let rest = group.drop_last();
            tail_bounds(rest, from);
            let t = tail_of_group(rest, from);
            assert forall|k: int| 0 <= k < t implies #[trigger] group[k] < from by {
                assert(rest[k] == group[k]);
            }
            assert forall|k: int| t <= k < group.len() implies #[trigger] group[k] >= from by {
                if k < rest.len() {
                    assert(rest[k] == group[k]);
                }
            }
        }
    }
}

fn reversed(list: Vec<Face>) -> (r: Vec<Face>)
    ensures
        r@ == list@.reverse(),
{
    let ghost source = list@;
    let mut rest = list;
    let mut r: Vec<Face> = Vec::new();
    let mut left: usize = rest.len();
    while left > 0
        invariant
            left == rest.len(),
            left <= source.len(),
            rest@ == source.take(left as int),
            r.len() == source.len() - left,
            forall|k: int| 0 <= k < r.len() ==> #[trigger] r@[k] == source[source.len() - 1 - k],
        decreases left,
    {
        match rest.pop() {
            Some(face) => {
                r.push(face);
            },
            None => {},
        }
        assert(rest@ =~= source.take(left - 1));
        left -= 1;
    }
    assert(r@ =~= source.reverse());
    r
}

/// Hands the faces out to their groups.
#[verifier::loop_isolation(false)]
pub(crate) fn deal(faces: Vec<Face>, groups: &Vec<Vec<usize>>, Ghost(rel): Ghost<spec_fn(int, int) -> bool>) -> (r: Vec<Vec<Face>>)
    requires
        components_of(groups@, faces@.len() as int, rel),
    ensures
        r.len() == groups.len(),
        forall|g: int| 0 <= g < groups.len() ==> (#[trigger] r@[g])@ == chosen(faces@, groups@[g]@),
{
    let n: usize = faces.len();
    let labels = group_labels(n, groups, Ghost(rel));
    let ghost source = faces@;
    let mut buckets: Vec<Vec<Face>> = Vec::new();
    let mut g: usize = 0;
    while g < groups.len()
        invariant
            g <= groups.len(),
            buckets.len() == g,
            forall|h: int| 0 <= h < g ==> (#[trigger] buckets@[h])@.len() == 0,
        decreases groups.len() - g,
    {
        buckets.push(Vec::new());
        g += 1;
    }
    let mut rest = faces;
    let mut left: usize = n;
    proof {
        assert forall|h: int| 0 <= h < groups.len() implies (#[trigger] buckets@[h])@ == bucket(source, labels@, n as int, h as usize) by {
            assert(buckets@[h]@ =~= Seq::<Face>::empty());
        }
    }
    while left > 0
        invariant
            left <= n,
            left == rest.len(),
            rest@ == source.take(left as int),
            buckets.len() == groups.len(),
            forall|h: int| 0 <= h < groups.len() ==> (#[trigger] buckets@[h])@ == bucket(source, labels@, left as int, h as usize),
        decreases left,
    {
        let label: usize = labels[left - 1];
        assert(labels@[left - 1] < groups.len());
        let ghost before = buckets@;
        match rest.pop() {
            Some(face) => {
                assert(face == source[left - 1]);
                buckets[label].push(face);
            },
            None => {},
        }
        proof {
            assert(rest@ =~= source.take(left - 1));
            assert forall|h: int| 0 <= h < groups.len() implies (#[trigger] buckets@[h])@ == bucket(source, labels@, left - 1, h as usize) by {
                assert(before[h]@ == bucket(source, labels@, left as int, h as usize));
            }
        }
        left -= 1;
    }
    let mut turned: Vec<Vec<Face>> = Vec::new();
    let ghost filled = buckets@;
    let mut count: usize = buckets.len();
    while count > 0
        invariant
            count == buckets.len(),
            count <= groups.len(),
            buckets@ == filled.take(count as int),
            filled.len() == groups.len(),
            turned.len() == groups.len() - count,
            forall|k: int| 0 <= k < turned.len() ==> (#[trigger] turned@[k])@ == filled[groups.len() - 1 - k]@.reverse(),
        decreases count,
    {
        match buckets.pop() {
            Some(list) => {
                turned.push(reversed(list));
            },
            None => {},
        }
        assert(buckets@ =~= filled.take(count - 1));
        count -= 1;
    }
    let mut r: Vec<Vec<Face>> = Vec::new();
    let ghost held = turned@;
    let mut remaining: usize = turned.len();
    while remaining > 0
        invariant
            remaining == turned.len(),
            remaining <= held.len(),
            held.len() == groups.len(),
            turned@ == held.take(remaining as int),
            r.len() == groups.len() - remaining,
            forall|k: int| 0 <= k < r.len() ==> #[trigger] r@[k] == held[held.len() - 1 - k],
        decreases remaining,
    {
        match turned.pop() {
            Some(list) => {
                r.push(list);
            },
            None => {},
        }
        assert(turned@ =~= held.take(remaining - 1));
        remaining -= 1;
    }
    proof {
        assert forall|h: int| 0 <= h < groups.len() implies (#[trigger] r@[h])@ == chosen(source, groups@[h]@) by {
            assert(r@[h] == held[held.len() - 1 - h]);
            assert(held[held.len() - 1 - h]@ == filled[h]@.reverse());
            assert(groups@[h]@.len() > 0 && crate::ordering::ascending_indices(groups@[h]@));
            bucket_reverses(source, labels@, groups@, h, 0);
            let t = tail_of_group(groups@[h]@, 0);
            assert(t == 0) by {
                if t > 0 {
                    assert(groups@[h]@[0] < 0);
                }
            }
            assert(groups@[h]@.skip(0) =~= groups@[h]@);
            let list = chosen(source, groups@[h]@);
            assert(list.reverse().reverse() =~= list);
        }
    }
    r
}

/// The edges of the list that join different nodes.
spec fn proper_part(proper: Seq<(u32, u32)>, faces: Seq<Face>) -> bool {
    &&& proper_pairs(proper)
    &&& forall|edge: (u32, u32)| #[trigger]
        proper.contains(edge) <==> edge.0 < edge.1 && boundary_edge(faces, edge)
}

/// The nodes with a side to themselves.
spec fn loop_part(loops: Seq<u32>, faces: Seq<Face>) -> bool {
    forall|node: u32| #[trigger] loops.contains(node) <==> open_between(faces, node, node)
}

proof fn pinched_by(proper: Seq<(u32, u32)>, loops: Seq<u32>, faces: Seq<Face>, node: u32)
    requires
        proper_part(proper, faces),
        loop_part(loops, faces),
    ensures
        pinched(faces, node) <==> branches(proper, node) || (loops.contains(node) && endpoint(proper, node)),
{
    assert forall|x: u32| x != node implies (#[trigger] open_between(faces, node, x) <==> neighbours(proper, node, x)) by {
        assert(proper.contains(ordered_pair(node, x)) <==> boundary_edge(faces, ordered_pair(node, x)));
    }
    assert(!neighbours(proper, node, node)) by {
        if proper.contains(ordered_pair(node, node)) {
            assert(ordered_pair(node, node).0 < ordered_pair(node, node).1);
        }
    }
    if exists|x: u32, y: u32, z: u32| #[trigger] three_open(faces, node, x, y, z) {
        let (x, y, z) = choose|x: u32, y: u32, z: u32| #[trigger] three_open(faces, node, x, y, z);
        if x == node || y == node || z == node {
            assert(open_between(faces, node, node));
            assert(loops.contains(node));
            let other = if x == node { y } else { x };
            assert(open_between(faces, node, other));
            neighbour_is_endpoint(proper, other, node);
        } else {
            assert(three_neighbours(proper, node, x, y, z));
        }
    }
    if branches(proper, node) {
        let (x, y, z) = choose|x: u32, y: u32, z: u32| #[trigger] three_neighbours(proper, node, x, y, z);
        assert(open_between(faces, node, x) && open_between(faces, node, y) && open_between(faces, node, z));
        assert(three_open(faces, node, x, y, z));
    }
    if open_between(faces, node, node) {
        assert(loops.contains(node));
        if exists|x: u32| x != node && #[trigger] open_between(faces, node, x) {
            let x = choose|x: u32| x != node && #[trigger] open_between(faces, node, x);
            neighbour_is_endpoint(proper, x, node);
        }
        if endpoint(proper, node) {
            let k = choose|k: int| 0 <= k < proper.len() && ((#[trigger] proper[k]).0 == node || proper[k].1 == node);
            let x = if proper[k].0 == node { proper[k].1 } else { proper[k].0 };
            assert(proper[k].0 < proper[k].1);
            assert(proper.contains(proper[k]));
            assert(ordered_pair(node, x) == proper[k]);
            assert(open_between(faces, node, x));
        }
    }
}

#[verifier::loop_isolation(false)]
fn touches_any(nodes: &Vec<u32>, pinches: &Vec<u32>) -> (r: bool)
    requires
        ascending(pinches@),
    ensures
        r <==> exists|k: int| 0 <= k < nodes@.len() && pinches@.contains(#[trigger] nodes@[k]),
{
    let mut k: usize = 0;
    while k < nodes.len()
        invariant
            k <= nodes.len(),
            forall|m: int| 0 <= m < k ==> !pinches@.contains(#[trigger] nodes@[m]),
        decreases nodes.len() - k,
    {
        match find_id(pinches, nodes[k]) {
            Some(_) => {
                assert(pinches@.contains(nodes@[k as int]));
                return true;
            },
            None => {},
        }
        k += 1;
    }
    false
}

#[verifier::loop_isolation(false)]
fn incident_faces(sorted: &Vec<Face>, pinches: &Vec<u32>, Ghost(faces): Ghost<Seq<Face>>) -> (incident: Vec<bool>)
    requires
        ascending(pinches@),
        forall|node: u32| #[trigger] pinched(faces, node) <==> pinches@.contains(node),
    ensures
        incident.len() == sorted.len(),
        forall|g: int| 0 <= g < sorted.len() ==> #[trigger] incident@[g] == at_pinch(faces, sorted@[g].nodes@),
{
    let mut incident: Vec<bool> = Vec::new();
    let mut f: usize = 0;
    while f < sorted.len()
        invariant
            f <= sorted.len(),
            incident.len() == f,
            forall|g: int| 0 <= g < f ==> #[trigger] incident@[g] == at_pinch(faces, sorted@[g].nodes@),
        decreases sorted.len() - f,
    {
        let touching = touches_any(&sorted[f].nodes, pinches);
        proof {
            let nodes = sorted@[f as int].nodes@;
            if touching {
                let k = choose|k: int| 0 <= k < nodes.len() && pinches@.contains(#[trigger] nodes[k]);
                assert(pinched(faces, nodes[k]));
            }
            if at_pinch(faces, nodes) {
                let k = choose|k: int| 0 <= k < nodes.len() && pinched(faces, #[trigger] nodes[k]);
                assert(pinches@.contains(nodes[k]));
            }
        }
        incident.push(touching);
        f += 1;
    }
    incident
}

pub(crate) fn face_rings(faces: &Vec<Face>) -> (rings: Vec<Vec<u32>>)
    ensures
        rings.len() == faces.len(),
        forall|g: int| 0 <= g < faces.len() ==> (#[trigger] rings@[g])@ == faces@[g].nodes@,
{
    let mut rings: Vec<Vec<u32>> = Vec::new();
    let mut f: usize = 0;
    while f < faces.len()
        invariant
            f <= faces.len(),
            rings.len() == f,
            forall|g: int| 0 <= g < f ==> (#[trigger] rings@[g])@ == faces@[g].nodes@,
        decreases faces.len() - f,
    {
        rings.push(copy_ids(&faces[f].nodes));
        f += 1;
    }
    rings
}

#[verifier::loop_isolation(false)]
#[verifier::rlimit(40)]
fn same_side_groups(faces: &Vec<Face>, incident: &Vec<bool>, Ghost(region): Ghost<Seq<Face>>) -> (groups: Vec<Vec<usize>>)
    requires
        incident.len() == faces.len(),
        forall|g: int| 0 <= g < faces.len() ==> #[trigger] incident@[g] == at_pinch(region, faces@[g].nodes@),
    ensures
        components_of(groups@, faces@.len() as int, fan(region, faces@)),
{
    let rings = face_rings(faces);
    let labels = edge_labels(&rings);
    let neighbours = label_pairs(&labels);
    let mut together: Vec<bool> = Vec::new();
    let mut k: usize = 0;
    proof {
        assert forall|m: int| 0 <= m < neighbours@.len() implies (#[trigger] neighbours@[m]).0 < neighbours@[m].1 < faces.len() by {
            assert(neighbours@.contains((neighbours@[m].0, neighbours@[m].1)));
        }
    }
    while k < neighbours.len()
        invariant
            k <= neighbours.len(),
            together.len() == k,
            forall|m: int| 0 <= m < k ==> #[trigger] together@[m] == (at_pinch(region, faces@[neighbours@[m].0 as int].nodes@) <==> at_pinch(region, faces@[neighbours@[m].1 as int].nodes@)),
        decreases neighbours.len() - k,
    {
        let (a, b) = neighbours[k];
        assert(neighbours@[k as int].0 < neighbours@[k as int].1 < faces.len());
        assert(incident@[a as int] == at_pinch(region, faces@[a as int].nodes@));
        assert(incident@[b as int] == at_pinch(region, faces@[b as int].nodes@));
        together.push(incident[a] == incident[b]);
        k += 1;
    }
    let groups = answered_groups(faces.len(), &neighbours, &together);
    proof {
        let answered = answered_relation(neighbours@, together@);
        let wanted = fan(region, faces@);
        assert forall|a: int, b: int| answered(a, b) implies #[trigger] wanted(a, b) by {
            let m = choose|m: int| 0 <= m < neighbours@.len() && (#[trigger] neighbours@[m]).0 == a && neighbours@[m].1 == b && together@[m];
            assert(neighbours@.contains((neighbours@[m].0, neighbours@[m].1)));
            assert(share_label(labels@)(a, b));
            shared_labels_are_edges(rings@, labels@, a, b);
            assert(rings@[a]@ == faces@[a].nodes@ && rings@[b]@ == faces@[b].nodes@);
        }
        assert forall|a: int, b: int| wanted(a, b) implies #[trigger] answered(a, b) by {
            shared_labels_are_edges(rings@, labels@, a, b);
            assert(rings@[a]@ == faces@[a].nodes@ && rings@[b]@ == faces@[b].nodes@);
            assert(share_label(labels@)(a, b));
            assert(neighbours@.contains((a as usize, b as usize)));
            let m = choose|m: int| 0 <= m < neighbours@.len() && neighbours@[m] == (a as usize, b as usize);
            assert(neighbours@[m].0 == a && neighbours@[m].1 == b && together@[m]);
        }
        same_relation(groups@, faces@.len() as int, answered, wanted);
    }
    groups
}

/// Parts the boundary edges into those that join different nodes and the nodes with a
/// side to themselves.
#[verifier::loop_isolation(false)]
fn part_edges(pairs: &Vec<(u32, u32)>, Ghost(faces): Ghost<Seq<Face>>) -> (r: (Vec<(u32, u32)>, Vec<u32>))
    requires
        open_pairs(pairs@, faces),
    ensures
        proper_part(r.0@, faces),
        loop_part(r.1@, faces),
{
    let mut proper: Vec<(u32, u32)> = Vec::new();
    let mut loops: Vec<u32> = Vec::new();
    let mut k: usize = 0;
    while k < pairs.len()
        invariant
            k <= pairs@.len(),
            proper_pairs(proper@),
            forall|m: int| 0 <= m < proper@.len() ==> pairs@.take(k as int).contains(#[trigger] proper@[m]),
            forall|m: int| 0 <= m < k && (#[trigger] pairs@[m]).0 < pairs@[m].1 ==> proper@.contains(pairs@[m]),
            forall|m: int| 0 <= m < loops@.len() ==> pairs@.contains((#[trigger] loops@[m], loops@[m])),
            forall|m: int| 0 <= m < k && (#[trigger] pairs@[m]).0 == pairs@[m].1 ==> loops@.contains(pairs@[m].0),
        decreases pairs@.len() - k,
    {
        let (a, b) = pairs[k];
        let ghost before = proper@;
        let ghost earlier = loops@;
        if a < b {
            proper.push((a, b));
        } else if a == b {
            loops.push(a);
        }
        proof {
            let shorter = pairs@.take(k as int);
            let longer = pairs@.take(k + 1);
            assert(longer[k as int] == pairs@[k as int]);
            assert(pairs@.contains(pairs@[k as int]));
            assert forall|e: (u32, u32)| #[trigger] shorter.contains(e) implies longer.contains(e) && e != pairs@[k as int] by {
                let m = choose|m: int| 0 <= m < shorter.len() && shorter[m] == e;
                assert(longer[m] == e);
                assert(pairs@[m] != pairs@[k as int]);
            }
            assert forall|m: int| 0 <= m < proper@.len() implies longer.contains(#[trigger] proper@[m]) by {
                if m < before.len() {
                    assert(proper@[m] == before[m]);
                    assert(shorter.contains(before[m]));
                }
            }
            assert(proper_pairs(proper@)) by {
                if a < b {
                    assert forall|i: int, j: int| 0 <= i < proper@.len() && 0 <= j < proper@.len() && i != j implies proper@[i] != proper@[j] by {
                        if i < before.len() {
                            assert(shorter.contains(before[i]));
                        }
                        if j < before.len() {
                            assert(shorter.contains(before[j]));
                        }
                    }
                }
            }
            assert forall|e: (u32, u32)| before.contains(e) implies #[trigger] proper@.contains(e) by {
                let m = choose|m: int| 0 <= m < before.len() && before[m] == e;
                assert(proper@[m] == e);
            }
            assert forall|n: u32| earlier.contains(n) implies #[trigger] loops@.contains(n) by {
                let m = choose|m: int| 0 <= m < earlier.len() && earlier[m] == n;
                assert(loops@[m] == n);
            }
            if a < b {
                assert(proper@[before.len() as int] == (a, b));
            }
            if a == b {
                assert(loops@[earlier.len() as int] == a);
            }
            assert forall|m: int| 0 <= m < loops@.len() implies pairs@.contains((#[trigger] loops@[m], loops@[m])) by {
                if m < earlier.len() {
                    assert(loops@[m] == earlier[m]);
                }
            }
        }
        k += 1;
    }
    proof {
        assert(pairs@.take(k as int) =~= pairs@);
        assert forall|edge: (u32, u32)| #[trigger] proper@.contains(edge) <==> edge.0 < edge.1 && boundary_edge(faces, edge) by {
            if proper@.contains(edge) {
                let m = choose|m: int| 0 <= m < proper@.len() && proper@[m] == edge;
                assert(pairs@.contains(proper@[m]));
            }
            if edge.0 < edge.1 && boundary_edge(faces, edge) {
                assert(pairs@.contains(edge));
                let m = choose|m: int| 0 <= m < pairs@.len() && pairs@[m] == edge;
                assert(proper@.contains(pairs@[m]));
            }
        }
        assert forall|node: u32| #[trigger] loops@.contains(node) <==> open_between(faces, node, node) by {
            if loops@.contains(node) {
                let m = choose|m: int| 0 <= m < loops@.len() && loops@[m] == node;
                assert(pairs@.contains((loops@[m], loops@[m])));
            }
            if open_between(faces, node, node) {
                assert(pairs@.contains((node, node)));
                let m = choose|m: int| 0 <= m < pairs@.len() && pairs@[m] == (node, node);
                assert(loops@.contains(pairs@[m].0));
            }
        }
    }
    (proper, loops)
}

/// The pinched nodes of an unsettled region; `None` for a settled one.
#[verifier::loop_isolation(false)]
#[verifier::rlimit(60)]
fn pinched_nodes(faces: &Vec<Face>) -> (r: Option<Vec<u32>>)
    ensures
        match r {
            Some(pinches) => {
                &&& !settled(faces@)
                &&& ascending(pinches@)
                &&& forall|node: u32| #[trigger] pinched(faces@, node) <==> pinches@.contains(node)
            },
            None => settled(faces@),
        },
{
    let table = edge_table(faces);
    let pairs = match open_edges(faces, &table) {
        Some(pairs) => pairs,
        None => {
            return None;
        },
    };
    let (proper, loops) = part_edges(&pairs, Ghost(faces@));
    let ends = endpoints(&proper);
    let mut all = branch_nodes(&proper);
    let ghost branching = all@;
    let mut k: usize = 0;
    while k < loops.len()
        invariant
            k <= loops@.len(),
            forall|m: int|
                0 <= m < all@.len() ==> branching.contains(#[trigger] all@[m]) || (loops@.contains(all@[m]) && endpoint(proper@, all@[m])),
            forall|n: u32| branching.contains(n) ==> #[trigger] all@.contains(n),
            forall|m: int| 0 <= m < k && endpoint(proper@, #[trigger] loops@[m]) ==> all@.contains(loops@[m]),
        decreases loops@.len() - k,
    {
        let ghost before = all@;
        let node: u32 = loops[k];
        assert(loops@.contains(node));
        assert(ends@.contains(node) <==> endpoint(proper@, node));
        if find_id(&ends, node).is_some() {
            all.push(node);
            assert(all@[before.len() as int] == node);
        }
        proof {
            assert forall|n: u32| before.contains(n) implies #[trigger] all@.contains(n) by {
                let m = choose|m: int| 0 <= m < before.len() && before[m] == n;
                assert(all@[m] == n);
            }
            assert forall|m: int| 0 <= m < all@.len() implies branching.contains(#[trigger] all@[m]) || (loops@.contains(all@[m]) && endpoint(proper@, all@[m])) by {
                if m < before.len() {
                    assert(all@[m] == before[m]);
                }
            }
        }
        k += 1;
    }
    let ghost listed = all@;
    let pinches = unique(all);
    proof {
        assert forall|node: u32| #[trigger] pinched(faces@, node) <==> pinches@.contains(node) by {
            pinched_by(proper@, loops@, faces@, node);
            assert(branching.contains(node) <==> branches(proper@, node));
            if listed.contains(node) {
                let m = choose|m: int| 0 <= m < listed.len() && listed[m] == node;
                assert(branching.contains(listed[m]) || (loops@.contains(listed[m]) && endpoint(proper@, listed[m])));
            }
            if loops@.contains(node) && endpoint(proper@, node) {
                let m = choose|m: int| 0 <= m < loops@.len() && loops@[m] == node;
                assert(listed.contains(loops@[m]));
            }
        }
    }
    if pinches.len() == 0 {
        proof {
            assert forall|node: u32| !#[trigger] pinched(faces@, node) by {
                assert(!pinches@.contains(node));
            }
        }
        return None;
    }
    proof {
        assert(pinches@.contains(pinches@[0]));
        assert(pinched(faces@, pinches@[0]));
    }
    Some(pinches)
}

/// Puts faces in the order of their numbers, each number once.
#[verifier::loop_isolation(false)]
fn ascend(faces: &Vec<Face>) -> (sorted: Vec<Face>)
    ensures
        by_number(sorted@, faces@),
        sorted.len() <= faces.len(),
{
    let mut keys: Vec<i128> = Vec::new();
    let mut f: usize = 0;
    while f < faces.len()
        invariant
            f <= faces.len(),
            keys.len() == f,
            forall|m: int| 0 <= m < f ==> #[trigger] keys@[m] == faces@[m].id,
        decreases faces.len() - f,
    {
        keys.push(faces[f].id as i128);
        f += 1;
    }
    let order = sorted_indices(&keys);
    let mut sorted: Vec<Face> = Vec::new();
    let mut k: usize = 0;
    while k < order.len()
        invariant
            k <= order.len(),
            sorted.len() <= k,
            k > 0 ==> sorted.len() > 0 && sorted@.last().id == faces@[order@[k - 1] as int].id,
            ascending(ids_of(sorted@)),
            forall|m: int| 0 <= m < sorted.len() ==> listed(faces@, #[trigger] sorted@[m]),
            forall|m: int| 0 <= m < k ==> ids_of(sorted@).contains(faces@[#[trigger] order@[m] as int].id),
        decreases order.len() - k,
    {
        let at: usize = order[k];
        let face = &faces[at];
        let fresh: bool = k == 0 || faces[order[k - 1]].id != face.id;
        let ghost before = sorted@;
        if fresh {
            sorted.push(Face { id: face.id, nodes: copy_ids(&face.nodes) });
        }
        proof {
            if k > 0 {
                assert(key_before(keys@, order@[k - 1], order@[k as int]));
                assert(keys@[order@[k - 1] as int] == faces@[order@[k - 1] as int].id);
                assert(keys@[at as int] == faces@[at as int].id);
            }
            if fresh {
                assert(ids_of(sorted@) =~= ids_of(before).push(face.id));
                assert(listed(faces@, sorted@.last())) by {
                    assert(faces@[at as int].id == sorted@.last().id && faces@[at as int].nodes@ == sorted@.last().nodes@);
                }
                assert forall|m: int| 0 <= m < sorted.len() implies listed(faces@, #[trigger] sorted@[m]) by {
                    if m < before.len() {
                        assert(sorted@[m] == before[m]);
                    }
                }
                assert forall|i: int, j: int| 0 <= i < j < ids_of(sorted@).len() implies ids_of(sorted@)[i] < ids_of(sorted@)[j] by {
                    if j == before.len() {
                        assert(ids_of(before)[i] <= before.last().id) by {
                            if i < before.len() - 1 {
                                assert(ids_of(before)[i] < ids_of(before)[before.len() - 1]);
                            }
                        }
                    } else {
                        assert(ids_of(before)[i] < ids_of(before)[j]);
                    }
                }
            }
            assert forall|m: int| 0 <= m < k + 1 implies ids_of(sorted@).contains(faces@[#[trigger] order@[m] as int].id) by {
                if m < k {
                    let id = faces@[order@[m] as int].id;
                    assert(ids_of(before).contains(id));
                    let i = choose|i: int| 0 <= i < ids_of(before).len() && ids_of(before)[i] == id;
                    assert(ids_of(sorted@)[i] == id);
                } else {
                    assert(ids_of(sorted@)[sorted.len() - 1] == face.id);
                }
            }
        }
        k += 1;
    }
    proof {
        let ids = ids_of(sorted@);
        let given = ids_of(faces@);
        assert forall|id: u32| #[trigger] given.contains(id) implies ids.contains(id) by {
            let f = choose|f: int| 0 <= f < given.len() && given[f] == id;
            assert(order@.contains(f as usize));
            let m = choose|m: int| 0 <= m < order@.len() && order@[m] == f as usize;
            assert(ids.contains(faces@[order@[m] as int].id));
        }
        assert forall|id: u32| #[trigger] ids.contains(id) implies given.contains(id) by {
            let m = choose|m: int| 0 <= m < ids.len() && ids[m] == id;
            assert(listed(faces@, sorted@[m]));
            let f = choose|f: int| 0 <= f < faces@.len() && (#[trigger] faces@[f]).id == sorted@[m].id && faces@[f].nodes@ == sorted@[m].nodes@;
            assert(given[f] == id);
        }
    }
    sorted
}

proof fn whole_is_one(faces: Seq<Face>, groups: Seq<Vec<usize>>, rel: spec_fn(int, int) -> bool)
    requires
        components_of(groups, faces.len() as int, rel),
        groups.len() > 1,
    ensures
        forall|g: int| 0 <= g < groups.len() ==> 0 < (#[trigger] groups[g])@.len() < faces.len(),
{
    components_total(groups, faces.len() as int, rel);
    assert forall|g: int| 0 <= g < groups.len() implies 0 < (#[trigger] groups[g])@.len() < faces.len() by {
        let other = if g == 0 { 1int } else { 0int };
        assert(groups[g]@.len() > 0 && groups[other]@.len() > 0);
        pair_fits(groups, groups.len() as int, g, other);
    }
}

proof fn pair_fits(groups: Seq<Vec<usize>>, upto: int, g: int, h: int)
    requires
        0 <= upto <= groups.len(),
        0 <= g < groups.len(),
        0 <= h < groups.len(),
        g != h,
    ensures
        joined_groups(groups, upto).len() >= (if g < upto { groups[g]@.len() } else { 0 }) + (if h < upto { groups[h]@.len() } else { 0 }),
    decreases upto,
{
    if upto > 0 {
        pair_fits(groups, upto - 1, g, h);
    }
}

pub(crate) fn all_ids(faces: &Vec<Face>) -> (ids: Vec<u32>)
    ensures
        ids@ == ids_of(faces@),
{
    let mut ids: Vec<u32> = Vec::new();
    let mut f: usize = 0;
    while f < faces.len()
        invariant
            f <= faces.len(),
            ids.len() == f,
            forall|k: int| 0 <= k < f ==> #[trigger] ids@[k] == faces@[k].id,
        decreases faces.len() - f,
    {
        ids.push(faces[f].id);
        f += 1;
    }
    assert(ids@ =~= ids_of(faces@));
    ids
}

/// Opens a pinched boundary by isolating its incident face fans along existing
/// source edges. This partitions material, never fills a hole or moves a node.
/// Regions with nonmanifold edges are left for the boundary to reject.
#[verifier::loop_isolation(false)]
pub fn split_faces(faces: Vec<Face>) -> (parts: Vec<Vec<u32>>)
    ensures
        splits(faces@, views(parts@)),
    decreases faces@.len(),
{
    let ghost source = faces@;
    let pinches = match pinched_nodes(&faces) {
        None => {
            let mut parts: Vec<Vec<u32>> = Vec::new();
            parts.push(all_ids(&faces));
            assert(views(parts@) =~= seq![ids_of(faces@)]);
            return parts;
        },
        Some(pinches) => pinches,
    };
    let sorted = ascend(&faces);
    let incident = incident_faces(&sorted, &pinches, Ghost(source));
    let groups = same_side_groups(&sorted, &incident, Ghost(source));
    let ghost ordered = sorted@;
    if groups.len() <= 1 {
        let mut parts: Vec<Vec<u32>> = Vec::new();
        parts.push(all_ids(&sorted));
        proof {
            assert(views(parts@) =~= seq![ids_of(ordered)]);
            assert(opens_into(source, ordered, groups@, Seq::empty(), views(parts@)));
        }
        return parts;
    }
    proof {
        whole_is_one(ordered, groups@, fan(source, ordered));
    }
    let mut piles = deal(sorted, &groups, Ghost(fan(source, ordered)));
    let ghost dealt = piles@;
    let mut found: Vec<Vec<Vec<u32>>> = Vec::new();
    let mut left: usize = piles.len();
    while left > 0
        invariant
            left == piles.len(),
            left <= groups.len(),
            dealt.len() == groups.len(),
            piles@ == dealt.take(left as int),
            found.len() == groups.len() - left,
            forall|k: int| 0 <= k < found.len() ==> splits(chosen(ordered, groups@[groups.len() - 1 - k]@), views((#[trigger] found@[k])@)),
        decreases left,
    {
        match piles.pop() {
            Some(pile) => {
                proof {
                    assert(pile == dealt[left - 1]);
                    assert(pile@ == chosen(ordered, groups@[left - 1]@));
                    assert(groups@[left - 1]@.len() < source.len());
                }
                found.push(split_faces(pile));
            },
            None => {},
        }
        assert(piles@ =~= dealt.take(left - 1));
        left -= 1;
    }
    let ghost pieces = Seq::new(groups@.len(), |g: int| views(found@[groups@.len() - 1 - g]@));
    let ghost answers = found@;
    let mut parts: Vec<Vec<u32>> = Vec::new();
    let mut rest: usize = found.len();
    while rest > 0
        invariant
            rest == found.len(),
            rest <= answers.len(),
            answers.len() == groups.len(),
            found@ == answers.take(rest as int),
            pieces.len() == groups.len(),
            forall|g: int| 0 <= g < groups.len() ==> #[trigger] pieces[g] == views(answers[groups@.len() - 1 - g]@),
            views(parts@) == joined_pieces(pieces, groups.len() - rest),
        decreases rest,
    {
        match found.pop() {
            Some(list) => {
                let ghost g = groups.len() - rest;
                let ghost before = parts@;
                let ghost added = list@;
                assert(pieces[g] == views(added));
                let mut list = list;
                parts.append(&mut list);
                assert(parts@ == before + added);
                assert(views(parts@) =~= views(before) + views(added));
                assert(joined_pieces(pieces, g + 1) == joined_pieces(pieces, g) + pieces[g]);
            },
            None => {},
        }
        assert(found@ =~= answers.take(rest - 1));
        rest -= 1;
    }
    proof {
        assert(opens_into(source, ordered, groups@, pieces, views(parts@)));
        assert forall|g: int| 0 <= g < groups@.len() implies (#[trigger] groups@[g])@.len() < source.len() && splits(chosen(ordered, groups@[g]@), pieces[g]) by {
            let k = groups@.len() - 1 - g;
            assert(splits(chosen(ordered, groups@[groups@.len() - 1 - k]@), views(answers[k]@)));
        }
        assert(pieces_split(source, ordered, groups@, pieces));
    }
    parts
}

/// The faces of the listed elements.
pub open spec fn faces_for(
    faces: Seq<Face>,
    ids: Seq<u32>,
    facets: Map<u32, Vec<u32>>,
) -> bool {
    &&& faces.len() == ids.len()
    &&& forall|k: int|
        0 <= k < ids.len() ==> (#[trigger] faces[k]).id == ids[k] && faces[k].nodes@
            == facets[ids[k]]@
}

/// The region of the listed elements, opened at its pinched nodes. Each element
/// has its perimeter in `facets`.
pub fn split_pinched_regions(
    ids: &[u32],
    facets: &std::collections::BTreeMap<u32, Vec<u32>>,
) -> (parts: Vec<Vec<u32>>)
    requires
        forall|k: int| 0 <= k < ids@.len() ==> facets@.dom().contains(#[trigger] ids@[k]),
    ensures
        exists|faces: Seq<Face>| #[trigger]
            faces_for(faces, ids@, facets@) && splits(faces, views(parts@)),
{
    broadcast use vstd::std_specs::btree::group_btree_axioms;

    let mut faces: Vec<Face> = Vec::new();
    let mut k: usize = 0;
    while k < ids.len()
        invariant
            k <= ids@.len(),
            forall|k: int| 0 <= k < ids@.len() ==> facets@.dom().contains(#[trigger] ids@[k]),
            faces.len() == k,
            forall|m: int|
                0 <= m < k ==> (#[trigger] faces@[m]).id == ids@[m] && faces@[m].nodes@
                    == facets@[ids@[m]]@,
        decreases ids@.len() - k,
    {
        assert(facets@.dom().contains(ids@[k as int]));
        match facets.get(&ids[k]) {
            Some(nodes) => {
                let nodes = copy_ids(nodes);
                faces.push(Face { id: ids[k], nodes });
            },
            None => {},
        }
        k += 1;
    }
    let ghost source = faces@;
    proof {
        assert(faces_for(source, ids@, facets@));
    }
    split_faces(faces)
}

pub open spec fn total_size(parts: Seq<Seq<u32>>) -> nat
    decreases parts.len(),
{
    if parts.len() == 0 {
        0
    } else {
        total_size(parts.drop_last()) + parts.last().len()
    }
}

pub open spec fn in_some_part(parts: Seq<Seq<u32>>, id: u32) -> bool {
    exists|p: int| 0 <= p < parts.len() && (#[trigger] parts[p]).contains(id)
}

proof fn total_size_adds(a: Seq<Seq<u32>>, b: Seq<Seq<u32>>)
    ensures
        total_size(a + b) == total_size(a) + total_size(b),
    decreases b.len(),
{
    if b.len() == 0 {
        assert(a + b =~= a);
    } else {
        total_size_adds(a, b.drop_last());
        assert((a + b).drop_last() =~= a + b.drop_last());
        assert((a + b).last() == b.last());
    }
}

proof fn part_of_sum(a: Seq<Seq<u32>>, b: Seq<Seq<u32>>, id: u32)
    ensures
        in_some_part(a + b, id) <==> in_some_part(a, id) || in_some_part(b, id),
{
    if in_some_part(a, id) {
        let p = choose|p: int| 0 <= p < a.len() && (#[trigger] a[p]).contains(id);
        assert((a + b)[p] == a[p]);
    }
    if in_some_part(b, id) {
        let p = choose|p: int| 0 <= p < b.len() && (#[trigger] b[p]).contains(id);
        assert((a + b)[a.len() + p] == b[p]);
    }
    if in_some_part(a + b, id) {
        let p = choose|p: int| 0 <= p < (a + b).len() && (#[trigger] (a + b)[p]).contains(id);
        if p < a.len() {
            assert(a[p] == (a + b)[p]);
        } else {
            assert(b[p - a.len()] == (a + b)[p]);
        }
    }
}

proof fn pieces_keep(
    faces: Seq<Face>,
    sorted: Seq<Face>,
    groups: Seq<Vec<usize>>,
    pieces: Seq<Seq<Seq<u32>>>,
    upto: int,
)
    requires
        0 <= upto <= groups.len(),
        pieces.len() == groups.len(),
        ascending(ids_of(sorted)),
        components_of(groups, sorted.len() as int, fan(faces, sorted)),
        pieces_split(faces, sorted, groups, pieces),
    ensures
        total_size(joined_pieces(pieces, upto)) == joined_groups(groups, upto).len(),
        forall|id: u32| #[trigger]
            in_some_part(joined_pieces(pieces, upto), id) <==> exists|g: int, k: int|
                0 <= g < upto && 0 <= k < groups[g]@.len() && sorted[#[trigger] groups[g]@[k] as int].id == id,
    decreases faces.len(), upto + 1,
{
    if upto > 0 {
        pieces_keep(faces, sorted, groups, pieces, upto - 1);
        let last = groups[upto - 1]@;
        assert(groups[upto - 1]@.len() < faces.len());
        chosen_ascends(sorted, groups, fan(faces, sorted), upto - 1);
        split_keeps_every_face(chosen(sorted, last), pieces[upto - 1]);
        total_size_adds(joined_pieces(pieces, upto - 1), pieces[upto - 1]);
        assert forall|id: u32| #[trigger] in_some_part(joined_pieces(pieces, upto), id) <==> exists|g: int, k: int|
                0 <= g < upto && 0 <= k < groups[g]@.len() && sorted[#[trigger] groups[g]@[k] as int].id == id by {
            part_of_sum(joined_pieces(pieces, upto - 1), pieces[upto - 1], id);
            let ids = ids_of(chosen(sorted, last));
            if in_some_part(pieces[upto - 1], id) {
                assert(ids.contains(id));
                let k = choose|k: int| 0 <= k < ids.len() && ids[k] == id;
                assert(sorted[groups[upto - 1]@[k] as int].id == id);
            }
            if in_some_part(joined_pieces(pieces, upto - 1), id) {
                let (g, k) = choose|g: int, k: int| 0 <= g < upto - 1 && 0 <= k < groups[g]@.len() && sorted[#[trigger] groups[g]@[k] as int].id == id;
                assert(sorted[groups[g]@[k] as int].id == id);
            }
            if exists|g: int, k: int| 0 <= g < upto && 0 <= k < groups[g]@.len() && sorted[#[trigger] groups[g]@[k] as int].id == id {
                let (g, k) = choose|g: int, k: int| 0 <= g < upto && 0 <= k < groups[g]@.len() && sorted[#[trigger] groups[g]@[k] as int].id == id;
                if g == upto - 1 {
                    assert(ids[k] == id);
                    assert(ids.contains(id));
                    assert(in_some_part(pieces[upto - 1], id));
                } else {
                    assert(sorted[groups[g]@[k] as int].id == id);
                }
            }
        }
    }
}

proof fn chosen_ascends(sorted: Seq<Face>, groups: Seq<Vec<usize>>, rel: spec_fn(int, int) -> bool, g: int)
    requires
        ascending(ids_of(sorted)),
        components_of(groups, sorted.len() as int, rel),
        0 <= g < groups.len(),
    ensures
        ascending(ids_of(chosen(sorted, groups[g]@))),
{
    let group = groups[g]@;
    assert(ascending_indices(group));
    let ids = ids_of(chosen(sorted, group));
    assert forall|i: int, j: int| 0 <= i < j < ids.len() implies ids[i] < ids[j] by {
        assert(group[i] < group[j]);
        assert(groups[g]@[i] < sorted.len() && groups[g]@[j] < sorted.len());
        assert(ids_of(sorted)[group[i] as int] < ids_of(sorted)[group[j] as int]);
    }
}

/// Distinct numbers in another order are as many.
proof fn as_many(a: Seq<u32>, b: Seq<u32>)
    requires
        lists_distinct(a, b),
        b.no_duplicates(),
    ensures
        a.len() == b.len(),
{
    assert(a.no_duplicates()) by {
        assert forall|i: int, j: int| 0 <= i < a.len() && 0 <= j < a.len() && i != j implies a[i] != a[j] by {
            if i < j {
                assert(a[i] < a[j]);
            } else {
                assert(a[j] < a[i]);
            }
        }
    }
    a.unique_seq_to_set();
    b.unique_seq_to_set();
    assert(a.to_set() =~= b.to_set()) by {
        assert forall|x: u32| a.to_set().contains(x) <==> b.to_set().contains(x) by {
            assert(a.contains(x) <==> b.contains(x));
        }
    }
}

/// Opening pinched nodes loses no face and doubles none: every face number is
/// in some part and, where the numbers are distinct, the parts together are as
/// many as the faces.
pub proof fn split_keeps_every_face(faces: Seq<Face>, parts: Seq<Seq<u32>>)
    requires
        splits(faces, parts),
    ensures
        ids_of(faces).no_duplicates() ==> total_size(parts) == faces.len(),
        ascending(ids_of(faces)) ==> total_size(parts) == faces.len(),
        forall|id: u32| #[trigger] in_some_part(parts, id) <==> ids_of(faces).contains(id),
    decreases faces.len() + 1, 0int,
{
    if settled(faces) {
        one_part(faces, parts);
    } else {
        let (sorted, groups, pieces) = choose|sorted: Seq<Face>, groups: Seq<Vec<usize>>, pieces: Seq<Seq<Seq<u32>>>| #[trigger]
            opens_into(faces, sorted, groups, pieces, parts) && (groups.len() > 1 ==> pieces_split(faces, sorted, groups, pieces));
        if ascending(ids_of(faces)) {
            ascending_distinct(ids_of(faces));
        }
        if ids_of(faces).no_duplicates() {
            as_many(ids_of(sorted), ids_of(faces));
        }
        if groups.len() <= 1 {
            one_part(sorted, parts);
        } else {
            components_total(groups, sorted.len() as int, fan(faces, sorted));
            pieces_keep(faces, sorted, groups, pieces, groups.len() as int);
            assert forall|id: u32| #[trigger] in_some_part(parts, id) <==> ids_of(faces).contains(id) by {
                let ids = ids_of(sorted);
                assert(ids.contains(id) <==> ids_of(faces).contains(id));
                if in_some_part(parts, id) {
                    let (g, k) = choose|g: int, k: int| 0 <= g < groups.len() && 0 <= k < groups[g]@.len() && sorted[#[trigger] groups[g]@[k] as int].id == id;
                    assert(groups[g]@[k] < sorted.len());
                    assert(ids[groups[g]@[k] as int] == id);
                }
                if ids.contains(id) {
                    let f = choose|f: int| 0 <= f < ids.len() && ids[f] == id;
                    assert(in_some_group(groups, f));
                    let (g, k) = choose|g: int, k: int| 0 <= g < groups.len() && 0 <= k < groups[g]@.len() && #[trigger] groups[g]@[k] == f;
                    assert(sorted[groups[g]@[k] as int].id == id);
                }
            }
        }
    }
}

proof fn ascending_distinct(ids: Seq<u32>)
    requires
        ascending(ids),
    ensures
        ids.no_duplicates(),
{
    assert forall|i: int, j: int| 0 <= i < ids.len() && 0 <= j < ids.len() && i != j implies ids[i] != ids[j] by {
        if i < j {
            assert(ids[i] < ids[j]);
        } else {
            assert(ids[j] < ids[i]);
        }
    }
}

proof fn one_part(faces: Seq<Face>, parts: Seq<Seq<u32>>)
    requires
        parts == seq![ids_of(faces)],
    ensures
        total_size(parts) == faces.len(),
        forall|id: u32| #[trigger] in_some_part(parts, id) <==> ids_of(faces).contains(id),
{
    assert(parts.drop_last() =~= Seq::<Seq<u32>>::empty());
    assert(total_size(parts.drop_last()) == 0);
    assert forall|id: u32| #[trigger] in_some_part(parts, id) <==> ids_of(faces).contains(id) by {
        if ids_of(faces).contains(id) {
            assert(parts[0].contains(id));
        }
    }
}

/// Faces that have an edge in common.
pub open spec fn meeting(faces: Seq<Face>) -> spec_fn(int, int) -> bool {
    |a: int, b: int| share_edge(faces[a].nodes@, faces[b].nodes@)
}

/// From any face to any other leads a chain of faces, each of which has an edge in
/// common with the next.
pub open spec fn edge_joined(faces: Seq<Face>) -> bool {
    forall|a: int, b: int|
        0 <= a < faces.len() && 0 <= b < faces.len() ==> #[trigger] connected(
            faces.len() as int,
            meeting(faces),
            a,
            b,
        )
}

/// The part has its numbers ascending, and its faces hold together by their edges.
pub open spec fn held_together(faces: Seq<Face>, members: Seq<Face>, part: Seq<u32>) -> bool {
    &&& ids_of(members) == part
    &&& ascending(part)
    &&& forall|k: int| 0 <= k < members.len() ==> listed(faces, #[trigger] members[k])
    &&& edge_joined(members)
}

pub open spec fn holds_together(faces: Seq<Face>, part: Seq<u32>) -> bool {
    exists|members: Seq<Face>| #[trigger] held_together(faces, members, part)
}

proof fn group_is_joined(faces: Seq<Face>, sorted: Seq<Face>, groups: Seq<Vec<usize>>, g: int)
    requires
        components_of(groups, sorted.len() as int, fan(faces, sorted)),
        0 <= g < groups.len(),
    ensures
        edge_joined(chosen(sorted, groups[g]@)),
{
    let members = chosen(sorted, groups[g]@);
    let inner = meeting(members);
    let rel = fan(faces, sorted);
    assert forall|x: int, y: int|
        0 <= x < groups[g]@.len() && 0 <= y < groups[g]@.len() && #[trigger] touch(rel, groups[g]@[x] as int, groups[g]@[y] as int) implies touch(inner, x, y) by {
        assert(members[x] == sorted[groups[g]@[x] as int] && members[y] == sorted[groups[g]@[y] as int]);
        let (a, b) = (groups[g]@[x] as int, groups[g]@[y] as int);
        if rel(a, b) {
            assert(inner(x, y));
        } else {
            assert(rel(b, a));
            assert(inner(y, x));
        }
    }
    assert forall|a: int, b: int| 0 <= a < members.len() && 0 <= b < members.len() implies #[trigger] connected(members.len() as int, inner, a, b) by {
        component_inside(groups, sorted.len() as int, rel, g, a, b, inner);
    }
}

proof fn listed_through(faces: Seq<Face>, sorted: Seq<Face>, groups: Seq<Vec<usize>>, g: int)
    requires
        by_number(sorted, faces),
        components_of(groups, sorted.len() as int, fan(faces, sorted)),
        0 <= g < groups.len(),
    ensures
        forall|face: Face| #[trigger] listed(chosen(sorted, groups[g]@), face) ==> listed(faces, face),
{
    let members = chosen(sorted, groups[g]@);
    assert forall|face: Face| #[trigger] listed(members, face) implies listed(faces, face) by {
        let k = choose|k: int| 0 <= k < members.len() && (#[trigger] members[k]).id == face.id && members[k].nodes@ == face.nodes@;
        assert(groups[g]@[k] < sorted.len());
        assert(listed(faces, sorted[groups[g]@[k] as int]));
    }
}

/// The parts of a group that holds together hold together.
proof fn group_parts_hold(faces: Seq<Face>, parts: Seq<Seq<u32>>)
    requires
        splits(faces, parts),
        ascending(ids_of(faces)),
        edge_joined(faces),
    ensures
        forall|p: int| 0 <= p < parts.len() ==> holds_together(faces, #[trigger] parts[p]),
    decreases faces.len(), 2int, 0int,
{
    if settled(faces) {
        assert(held_together(faces, faces, parts[0]));
    } else {
        opened_parts_hold(faces, parts);
    }
}

proof fn opened_parts_hold(faces: Seq<Face>, parts: Seq<Seq<u32>>)
    requires
        splits(faces, parts),
        !settled(faces),
    ensures
        forall|p: int| 0 <= p < parts.len() ==> holds_together(faces, #[trigger] parts[p]),
    decreases faces.len(), 1int, 0int,
{
    let (sorted, groups, pieces) = choose|sorted: Seq<Face>, groups: Seq<Vec<usize>>, pieces: Seq<Seq<Seq<u32>>>| #[trigger]
        opens_into(faces, sorted, groups, pieces, parts) && (groups.len() > 1 ==> pieces_split(faces, sorted, groups, pieces));
    if groups.len() <= 1 {
        assert(edge_joined(sorted)) by {
            if sorted.len() > 0 {
                assert(in_some_group(groups, 0));
                components_total(groups, sorted.len() as int, fan(faces, sorted));
                assert(joined_groups(groups, 1) =~= joined_groups(groups, 0) + groups[0]@);
                assert(joined_groups(groups, 0).len() == 0);
                ascending_from_zero(groups, sorted.len() as int, fan(faces, sorted));
                group_is_joined(faces, sorted, groups, 0);
                assert(chosen(sorted, groups[0]@) =~= sorted);
            }
        }
        assert(held_together(faces, sorted, parts[0]));
    } else {
        joined_parts_hold(faces, sorted, groups, pieces, groups.len() as int);
    }
}

/// A single group of all items lists them in their order.
proof fn ascending_from_zero(groups: Seq<Vec<usize>>, n: int, rel: spec_fn(int, int) -> bool)
    requires
        0 <= n,
        components_of(groups, n, rel),
        groups.len() == 1,
    ensures
        groups[0]@.len() == n,
        forall|k: int| 0 <= k < n ==> #[trigger] groups[0]@[k] == k,
{
    components_total(groups, n, rel);
    assert(joined_groups(groups, 1) =~= joined_groups(groups, 0) + groups[0]@);
    assert(joined_groups(groups, 0).len() == 0);
    let group = groups[0]@;
    assert forall|k: int| 0 <= k < n implies #[trigger] groups[0]@[k] == k by {
        at_least(group, k);
        at_most(group, n, k);
    }
}

proof fn at_least(group: Seq<usize>, k: int)
    requires
        ascending_indices(group),
        0 <= k < group.len(),
    ensures
        group[k] >= k,
    decreases k,
{
    if k > 0 {
        at_least(group, k - 1);
        assert(group[k - 1] < group[k]);
    }
}

proof fn at_most(group: Seq<usize>, n: int, k: int)
    requires
        ascending_indices(group),
        group.len() == n,
        forall|m: int| 0 <= m < group.len() ==> #[trigger] group[m] < n,
        0 <= k < group.len(),
    ensures
        group[k] <= k,
    decreases n - k,
{
    if k < n - 1 {
        at_most(group, n, k + 1);
        assert(group[k] < group[k + 1]);
    }
}

proof fn joined_parts_hold(
    faces: Seq<Face>,
    sorted: Seq<Face>,
    groups: Seq<Vec<usize>>,
    pieces: Seq<Seq<Seq<u32>>>,
    upto: int,
)
    requires
        0 <= upto <= groups.len(),
        pieces.len() == groups.len(),
        by_number(sorted, faces),
        components_of(groups, sorted.len() as int, fan(faces, sorted)),
        pieces_split(faces, sorted, groups, pieces),
    ensures
        forall|p: int|
            0 <= p < joined_pieces(pieces, upto).len() ==> holds_together(
                faces,
                #[trigger] joined_pieces(pieces, upto)[p],
            ),
    decreases faces.len(), 0int, upto,
{
    if upto > 0 {
        joined_parts_hold(faces, sorted, groups, pieces, upto - 1);
        let g = upto - 1;
        let members = chosen(sorted, groups[g]@);
        chosen_ascends(sorted, groups, fan(faces, sorted), g);
        group_is_joined(faces, sorted, groups, g);
        assert(groups[g]@.len() < faces.len());
        group_parts_hold(members, pieces[g]);
        listed_through(faces, sorted, groups, g);
        let before = joined_pieces(pieces, g);
        assert forall|p: int| 0 <= p < joined_pieces(pieces, upto).len() implies holds_together(faces, #[trigger] joined_pieces(pieces, upto)[p]) by {
            if p < before.len() {
                assert(joined_pieces(pieces, upto)[p] == before[p]);
            } else {
                let part = pieces[g][p - before.len()];
                assert(joined_pieces(pieces, upto)[p] == part);
                assert(holds_together(members, part));
                let own = choose|own: Seq<Face>| #[trigger] held_together(members, own, part);
                assert forall|k: int| 0 <= k < own.len() implies listed(faces, #[trigger] own[k]) by {
                    assert(listed(members, own[k]));
                }
                assert(held_together(faces, own, part));
            }
        }
    }
}

/// Where a region is opened, the numbers of every part ascend, and its faces hold
/// together by their edges: a common node is not enough.
pub proof fn opened_parts_hold_together(faces: Seq<Face>, parts: Seq<Seq<u32>>)
    requires
        splits(faces, parts),
        parts.len() > 1,
    ensures
        forall|p: int| 0 <= p < parts.len() ==> holds_together(faces, #[trigger] parts[p]),
{
    if !settled(faces) {
        opened_parts_hold(faces, parts);
    }
}

/// Two lists of the same faces.
pub open spec fn same_faces(a: Seq<Face>, b: Seq<Face>) -> bool {
    &&& a.len() == b.len()
    &&& forall|k: int| 0 <= k < a.len() ==> (#[trigger] a[k]).id == b[k].id && a[k].nodes@ == b[k].nodes@
}

proof fn same_owners(a: Seq<Face>, b: Seq<Face>, edge: (u32, u32), upto: int)
    requires
        same_faces(a, b),
        0 <= upto <= a.len(),
    ensures
        owners(a, edge, upto) == owners(b, edge, upto),
    decreases upto,
{
    if upto > 0 {
        same_owners(a, b, edge, upto - 1);
        assert(a[upto - 1].nodes@ == b[upto - 1].nodes@);
    }
}

/// How often a face uses an edge.
spec fn side_uses(nodes: Seq<u32>, edge: (u32, u32)) -> nat {
    side_owners(nodes, edge, nodes.len() as int, 0).len()
}

spec fn uses(faces: Seq<Face>, edge: (u32, u32)) -> nat
    decreases faces.len(),
{
    if faces.len() == 0 {
        0
    } else {
        uses(faces.drop_last(), edge) + side_uses(faces.last().nodes@, edge)
    }
}

proof fn side_count(nodes: Seq<u32>, edge: (u32, u32), upto: int, a: usize, b: usize)
    ensures
        side_owners(nodes, edge, upto, a).len() == side_owners(nodes, edge, upto, b).len(),
    decreases upto,
{
    if upto > 0 {
        side_count(nodes, edge, upto - 1, a, b);
    }
}

proof fn counted(faces: Seq<Face>, edge: (u32, u32), upto: int)
    requires
        0 <= upto <= faces.len(),
    ensures
        owners(faces, edge, upto).len() == uses(faces.take(upto), edge),
    decreases upto,
{
    if upto > 0 {
        counted(faces, edge, upto - 1);
        assert(faces.take(upto).drop_last() =~= faces.take(upto - 1));
        assert(faces.take(upto).last() == faces[upto - 1]);
        let nodes = faces[upto - 1].nodes@;
        side_count(nodes, edge, nodes.len() as int, (upto - 1) as usize, 0);
    }
}

proof fn uses_without(faces: Seq<Face>, edge: (u32, u32), f: int)
    requires
        0 <= f < faces.len(),
    ensures
        uses(faces, edge) == uses(faces.remove(f), edge) + side_uses(faces[f].nodes@, edge),
    decreases faces.len(),
{
    if f == faces.len() - 1 {
        assert(faces.remove(f) =~= faces.drop_last());
    } else {
        uses_without(faces.drop_last(), edge, f);
        assert(faces.remove(f).drop_last() =~= faces.drop_last().remove(f));
        assert(faces.remove(f).last() == faces.last());
    }
}

/// The order of faces does not matter for how often they use an edge.
proof fn reordered_uses(sorted: Seq<Face>, faces: Seq<Face>, edge: (u32, u32))
    requires
        sorted.len() == faces.len(),
        ids_of(sorted).no_duplicates(),
        forall|k: int| 0 <= k < sorted.len() ==> listed(faces, #[trigger] sorted[k]),
    ensures
        uses(sorted, edge) == uses(faces, edge),
    decreases sorted.len(),
{
    if sorted.len() > 0 {
        let last = sorted.last();
        assert(listed(faces, sorted[sorted.len() - 1]));
        let f = choose|f: int| 0 <= f < faces.len() && (#[trigger] faces[f]).id == last.id && faces[f].nodes@ == last.nodes@;
        let rest = faces.remove(f);
        let fewer = sorted.drop_last();
        assert forall|k: int| 0 <= k < fewer.len() implies listed(rest, #[trigger] fewer[k]) by {
            assert(listed(faces, sorted[k]));
            let h = choose|h: int| 0 <= h < faces.len() && (#[trigger] faces[h]).id == sorted[k].id && faces[h].nodes@ == sorted[k].nodes@;
            assert(ids_of(sorted)[k] != ids_of(sorted)[sorted.len() - 1]);
            assert(h != f);
            let at = if h < f { h } else { h - 1 };
            assert(rest[at] == faces[h]);
        }
        assert(ids_of(fewer).no_duplicates()) by {
            assert forall|i: int, j: int| 0 <= i < fewer.len() && 0 <= j < fewer.len() && i != j implies ids_of(fewer)[i] != ids_of(fewer)[j] by {
                assert(ids_of(sorted)[i] != ids_of(sorted)[j]);
            }
        }
        reordered_uses(fewer, rest, edge);
        uses_without(faces, edge, f);
    }
}

proof fn same_pinches(a: Seq<Face>, b: Seq<Face>)
    requires
        forall|edge: (u32, u32)| #[trigger] edge_uses(a, edge) == edge_uses(b, edge),
    ensures
        settled(a) == settled(b),
        forall|nodes: Seq<u32>| #[trigger] at_pinch(a, nodes) == at_pinch(b, nodes),
{
    assert forall|node: u32| #[trigger] pinched(a, node) implies pinched(b, node) by {
        pinch_carries(a, b, node);
    }
    assert forall|node: u32| #[trigger] pinched(b, node) implies pinched(a, node) by {
        pinch_carries(b, a, node);
    }
    assert(manifold(a) == manifold(b)) by {
        if manifold(a) {
            assert forall|edge: (u32, u32)| #[trigger] edge_uses(b, edge) <= 2 by {
                assert(edge_uses(a, edge) <= 2);
            }
        }
        if manifold(b) {
            assert forall|edge: (u32, u32)| #[trigger] edge_uses(a, edge) <= 2 by {
                assert(edge_uses(b, edge) <= 2);
            }
        }
    }
    assert forall|nodes: Seq<u32>| #[trigger] at_pinch(a, nodes) == at_pinch(b, nodes) by {
        if at_pinch(a, nodes) {
            let k = choose|k: int| 0 <= k < nodes.len() && pinched(a, #[trigger] nodes[k]);
            assert(pinched(b, nodes[k]));
        }
        if at_pinch(b, nodes) {
            let k = choose|k: int| 0 <= k < nodes.len() && pinched(b, #[trigger] nodes[k]);
            assert(pinched(a, nodes[k]));
        }
    }
}

proof fn pinch_carries(a: Seq<Face>, b: Seq<Face>, node: u32)
    requires
        forall|edge: (u32, u32)| #[trigger] edge_uses(a, edge) == edge_uses(b, edge),
        pinched(a, node),
    ensures
        pinched(b, node),
{
    assert forall|x: u32| #[trigger] open_between(a, node, x) implies open_between(b, node, x) by {
        assert(edge_uses(a, ordered_pair(node, x)) == edge_uses(b, ordered_pair(node, x)));
    }
    if exists|x: u32, y: u32, z: u32| #[trigger] three_open(a, node, x, y, z) {
        let (x, y, z) = choose|x: u32, y: u32, z: u32| #[trigger] three_open(a, node, x, y, z);
        assert(three_open(b, node, x, y, z));
    } else {
        let x = choose|x: u32| x != node && #[trigger] open_between(a, node, x);
        assert(open_between(b, node, x));
    }
}

/// The whole of an unsettled region with one group is left whole again.
proof fn single_group_stays(
    faces: Seq<Face>,
    sorted: Seq<Face>,
    groups: Seq<Vec<usize>>,
    members: Seq<Face>,
    again: Seq<Seq<u32>>,
)
    requires
        ids_of(faces).no_duplicates(),
        by_number(sorted, faces),
        components_of(groups, sorted.len() as int, fan(faces, sorted)),
        groups.len() <= 1,
        same_faces(sorted, members),
        splits(members, again),
    ensures
        again == seq![ids_of(sorted)],
{
    assert(ids_of(members) =~= ids_of(sorted));
    if !settled(members) {
        let (other, parts_of, pieces) = choose|other: Seq<Face>, parts_of: Seq<Vec<usize>>, pieces: Seq<Seq<Seq<u32>>>| #[trigger]
            opens_into(members, other, parts_of, pieces, again) && (parts_of.len() > 1 ==> pieces_split(members, other, parts_of, pieces));
        crate::ordering::ascending_determined(ids_of(other), ids_of(sorted));
        assert(same_faces(sorted, other)) by {
            assert(other.len() == ids_of(other).len() && sorted.len() == ids_of(sorted).len());
            assert forall|k: int| 0 <= k < sorted.len() implies (#[trigger] sorted[k]).id == other[k].id && sorted[k].nodes@ == other[k].nodes@ by {
                assert(ids_of(sorted)[k] == ids_of(other)[k]);
                assert(listed(members, other[k]));
                let f = choose|f: int| 0 <= f < members.len() && (#[trigger] members[f]).id == other[k].id && members[f].nodes@ == other[k].nodes@;
                assert(sorted[f].id == members[f].id);
                ascending_distinct(ids_of(sorted));
                assert(ids_of(sorted)[f] == ids_of(sorted)[k]);
                assert(f == k);
            }
        }
        as_many(ids_of(sorted), ids_of(faces));
        ascending_distinct(ids_of(sorted));
        assert forall|edge: (u32, u32)| #[trigger] edge_uses(members, edge) == edge_uses(faces, edge) by {
            same_owners(sorted, members, edge, sorted.len() as int);
            counted(sorted, edge, sorted.len() as int);
            counted(faces, edge, faces.len() as int);
            assert(sorted.take(sorted.len() as int) =~= sorted);
            assert(faces.take(faces.len() as int) =~= faces);
            reordered_uses(sorted, faces, edge);
        }
        same_pinches(members, faces);
        let one = fan(faces, sorted);
        let two = fan(members, other);
        assert forall|a: int, b: int| one(a, b) implies #[trigger] two(a, b) by {
            assert(sorted[a].nodes@ == other[a].nodes@ && sorted[b].nodes@ == other[b].nodes@);
        }
        assert forall|a: int, b: int| two(a, b) implies #[trigger] one(a, b) by {
            assert(sorted[a].nodes@ == other[a].nodes@ && sorted[b].nodes@ == other[b].nodes@);
        }
        same_relation(groups, sorted.len() as int, one, two);
        components_unique(groups, parts_of, sorted.len() as int, two);
    }
}

proof fn part_stays(
    faces: Seq<Face>,
    parts: Seq<Seq<u32>>,
    facets: Map<u32, Vec<u32>>,
    p: int,
    members: Seq<Face>,
    again: Seq<Seq<u32>>,
)
    requires
        ids_of(faces).no_duplicates(),
        faces_for(faces, ids_of(faces), facets),
        splits(faces, parts),
        0 <= p < parts.len(),
        faces_for(members, parts[p], facets),
        splits(members, again),
    ensures
        again == seq![parts[p]],
    decreases faces.len(),
{
    assert(ids_of(members) =~= parts[p]);
    if settled(faces) {
        assert(same_faces(faces, members)) by {
            assert(faces.len() == ids_of(faces).len());
            assert forall|k: int| 0 <= k < faces.len() implies (#[trigger] faces[k]).id == members[k].id && faces[k].nodes@ == members[k].nodes@ by {
                assert(ids_of(faces)[k] == ids_of(members)[k]);
                assert(members[k].id == parts[p][k]);
            }
        }
        assert forall|edge: (u32, u32)| #[trigger] edge_uses(members, edge) == edge_uses(faces, edge) by {
            same_owners(faces, members, edge, faces.len() as int);
        }
        same_pinches(members, faces);
    } else {
        let (sorted, groups, pieces) = choose|sorted: Seq<Face>, groups: Seq<Vec<usize>>, pieces: Seq<Seq<Seq<u32>>>| #[trigger]
            opens_into(faces, sorted, groups, pieces, parts) && (groups.len() > 1 ==> pieces_split(faces, sorted, groups, pieces));
        assert forall|k: int| 0 <= k < sorted.len() implies (#[trigger] sorted[k]).nodes@ == facets[sorted[k].id]@ by {
            assert(listed(faces, sorted[k]));
            let f = choose|f: int| 0 <= f < faces.len() && (#[trigger] faces[f]).id == sorted[k].id && faces[f].nodes@ == sorted[k].nodes@;
            assert(ids_of(faces)[f] == faces[f].id);
        }
        if groups.len() <= 1 {
            assert(same_faces(sorted, members)) by {
                assert(sorted.len() == ids_of(sorted).len());
                assert forall|k: int| 0 <= k < sorted.len() implies (#[trigger] sorted[k]).id == members[k].id && sorted[k].nodes@ == members[k].nodes@ by {
                    assert(ids_of(sorted)[k] == ids_of(members)[k]);
                    assert(members[k].id == parts[p][k]);
                }
            }
            single_group_stays(faces, sorted, groups, members, again);
        } else {
            let (g, q) = piece_with(pieces, groups.len() as int, p);
            let inner = chosen(sorted, groups[g]@);
            chosen_ascends(sorted, groups, fan(faces, sorted), g);
            ascending_distinct(ids_of(inner));
            assert(groups[g]@.len() < faces.len());
            assert(faces_for(inner, ids_of(inner), facets)) by {
                assert forall|k: int| 0 <= k < ids_of(inner).len() implies (#[trigger] inner[k]).id == ids_of(inner)[k] && inner[k].nodes@ == facets[ids_of(inner)[k]]@ by {
                    assert(groups[g]@[k] < sorted.len());
                    assert(inner[k] == sorted[groups[g]@[k] as int]);
                }
            }
            part_stays(inner, pieces[g], facets, q, members, again);
        }
    }
}

proof fn piece_with(pieces: Seq<Seq<Seq<u32>>>, upto: int, p: int) -> (r: (int, int))
    requires
        0 <= upto <= pieces.len(),
        0 <= p < joined_pieces(pieces, upto).len(),
    ensures
        0 <= r.0 < upto,
        0 <= r.1 < pieces[r.0].len(),
        pieces[r.0][r.1] == joined_pieces(pieces, upto)[p],
    decreases upto,
{
    let before = joined_pieces(pieces, upto - 1);
    if p < before.len() {
        piece_with(pieces, upto - 1, p)
    } else {
        (upto - 1, p - before.len())
    }
}

/// A part cannot be opened any further: on its own it is left whole.
pub proof fn part_stays_whole(
    ids: Seq<u32>,
    facets: Map<u32, Vec<u32>>,
    faces: Seq<Face>,
    parts: Seq<Seq<u32>>,
    p: int,
    members: Seq<Face>,
    again: Seq<Seq<u32>>,
)
    requires
        ids.no_duplicates(),
        faces_for(faces, ids, facets),
        splits(faces, parts),
        0 <= p < parts.len(),
        faces_for(members, parts[p], facets),
        splits(members, again),
    ensures
        again == seq![parts[p]],
{
    assert(ids_of(faces) =~= ids);
    part_stays(faces, parts, facets, p, members, again);
}

} // verus!
