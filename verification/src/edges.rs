//! Sets of undirected edges between numbered vertices.
use vstd::prelude::*;
use crate::ordering::{key_before, sorted_indices};

verus! {

pub type Edge = [usize; 2];

/// The undirected edge between two vertices, smaller vertex first.
pub open spec fn key_of(a: usize, b: usize) -> Edge {
    if a < b {
        [a, b]
    } else {
        [b, a]
    }
}

pub fn key(a: usize, b: usize) -> (r: Edge)
    ensures
        r == key_of(a, b),
{
    if a < b {
        [a, b]
    } else {
        [b, a]
    }
}

/// An edge does not depend on the order of its ends.
pub proof fn key_is_symmetric(a: usize, b: usize)
    ensures
        key_of(a, b) =~= key_of(b, a),
{
}

pub open spec fn edge_before(a: Edge, b: Edge) -> bool {
    a[0] < b[0] || (a[0] == b[0] && a[1] < b[1])
}

/// Ascending by first, then by second vertex, nothing twice.
pub open spec fn edges_ascend(list: Seq<Edge>) -> bool {
    forall|i: int, j: int| 0 <= i < j < list.len() ==> edge_before(list[i], list[j])
}

pub open spec fn lists_edges(list: Seq<Edge>, edges: Seq<Edge>) -> bool {
    &&& edges_ascend(list)
    &&& forall|e: Edge| list.contains(e) <==> edges.contains(e)
}

pub fn same_edge(a: &Edge, b: &Edge) -> (r: bool)
    ensures
        r == (*a == *b),
{
    let equal: bool = a[0] == b[0] && a[1] == b[1];
    proof {
        if equal {
            assert(*a =~= *b);
        }
    }
    equal
}

#[verifier::loop_isolation(false)]
fn ordered_by_second(edges: &Vec<Edge>) -> (r: Vec<Edge>)
    ensures
        r@.len() == edges@.len(),
        forall|i: int, j: int| 0 <= i < j < r@.len() ==> r@[i][1] <= r@[j][1],
        forall|e: Edge| r@.contains(e) <==> edges@.contains(e),
{
    let mut keys: Vec<i128> = Vec::new();
    let mut k: usize = 0;
    while k < edges.len()
        invariant
            k <= edges.len(),
            keys.len() == k,
            forall|m: int| 0 <= m < k ==> #[trigger] keys@[m] == edges@[m][1],
        decreases edges.len() - k,
    {
        keys.push(edges[k][1] as i128);
        k += 1;
    }
    let order = sorted_indices(&keys);
    let mut r: Vec<Edge> = Vec::new();
    let mut k: usize = 0;
    while k < order.len()
        invariant
            k <= order.len(),
            r.len() == k,
            forall|m: int| 0 <= m < k ==> #[trigger] r@[m] == edges@[order@[m] as int],
        decreases order.len() - k,
    {
        r.push(edges[order[k]]);
        k += 1;
    }
    proof {
        assert forall|i: int, j: int| 0 <= i < j < r@.len() implies r@[i][1] <= r@[j][1] by {
            assert(key_before(keys@, order@[i], order@[j]));
        }
        assert forall|e: Edge| r@.contains(e) <==> edges@.contains(e) by {
            if r@.contains(e) {
                let m = choose|m: int| 0 <= m < r@.len() && r@[m] == e;
                assert(edges@[order@[m] as int] == e);
            }
            if edges@.contains(e) {
                let m = choose|m: int| 0 <= m < edges@.len() && edges@[m] == e;
                assert(m < edges.len() <= usize::MAX);
                assert(order@.contains(m as usize));
                let n = choose|n: int| 0 <= n < order@.len() && order@[n] == m as usize;
                assert(r@[n] == e);
            }
        }
    }
    r
}

/// The distinct edges of a list, ascending.
#[verifier::loop_isolation(false)]
pub fn distinct_edges(edges: &Vec<Edge>) -> (r: Vec<Edge>)
    ensures
        lists_edges(r@, edges@),
{
    let base = ordered_by_second(edges);
    let mut keys: Vec<i128> = Vec::new();
    let mut k: usize = 0;
    while k < base.len()
        invariant
            k <= base.len(),
            keys.len() == k,
            forall|m: int| 0 <= m < k ==> #[trigger] keys@[m] == base@[m][0],
        decreases base.len() - k,
    {
        keys.push(base[k][0] as i128);
        k += 1;
    }
    let order = sorted_indices(&keys);
    let mut r: Vec<Edge> = Vec::new();
    let mut k: usize = 0;
    while k < order.len()
        invariant
            k <= order.len(),
            edges_ascend(r@),
            forall|m: int| 0 <= m < r@.len() ==> base@.contains(#[trigger] r@[m]),
            forall|m: int| 0 <= m < k ==> r@.contains(base@[#[trigger] order@[m] as int]),
            k == 0 ==> r@.len() == 0,
            k > 0 ==> r@.len() > 0 && r@.last() == base@[order@[k - 1] as int],
        decreases order.len() - k,
    {
        let edge: Edge = base[order[k]];
        let ghost before = r@;
        assert(base@.contains(edge));
        proof {
            if k > 0 {
                assert(key_before(keys@, order@[k - 1], order@[k as int]));
                let last = base@[order@[k - 1] as int];
                assert(last[0] < edge[0] || (last[0] == edge[0] && last[1] <= edge[1]));
            }
        }
        if r.len() == 0 || !same_edge(&r[r.len() - 1], &edge) {
            proof {
                if r@.len() > 0 {
                    let last = r@.last();
                    if last[0] == edge[0] && last[1] == edge[1] {
                        assert(last =~= edge);
                    }
                    assert(edge_before(last, edge));
                }
            }
            r.push(edge);
            proof {
                assert forall|i: int, j: int| 0 <= i < j < r@.len() implies edge_before(r@[i], r@[j]) by {
                    if j == before.len() && i < before.len() - 1 {
                        assert(edge_before(before[i], before.last()));
                    }
                }
            }
        }
        proof {
            assert forall|e: Edge| before.contains(e) implies #[trigger] r@.contains(e) by {
                let m = choose|m: int| 0 <= m < before.len() && before[m] == e;
                assert(r@[m] == e);
            }
            assert(r@[r@.len() - 1] == edge);
            assert(r@.contains(edge));
        }
        k += 1;
    }
    proof {
        assert forall|e: Edge| r@.contains(e) <==> edges@.contains(e) by {
            assert(base@.contains(e) <==> edges@.contains(e));
            if r@.contains(e) {
                let m = choose|m: int| 0 <= m < r@.len() && r@[m] == e;
                assert(base@.contains(r@[m]));
            }
            if base@.contains(e) {
                let m = choose|m: int| 0 <= m < base@.len() && base@[m] == e;
                assert(m < base.len() <= usize::MAX);
                assert(order@.contains(m as usize));
                let n = choose|n: int| 0 <= n < order@.len() && order@[n] == m as usize;
                assert(r@.contains(base@[order@[n] as int]));
            }
        }
    }
    r
}

/// Finds an edge in an ascending list.
pub fn find_edge(list: &Vec<Edge>, wanted: &Edge) -> (r: Option<usize>)
    requires
        edges_ascend(list@),
    ensures
        match r {
            Some(k) => k < list@.len() && list@[k as int] == *wanted,
            None => !list@.contains(*wanted),
        },
{
    let mut low: usize = 0;
    let mut high: usize = list.len();
    while low < high
        invariant
            edges_ascend(list@),
            low <= high <= list.len(),
            forall|k: int| 0 <= k < low ==> edge_before(#[trigger] list@[k], *wanted),
            forall|k: int| high <= k < list@.len() ==> edge_before(*wanted, #[trigger] list@[k]),
        decreases high - low,
    {
        let middle: usize = low + (high - low) / 2;
        let edge: Edge = list[middle];
        if same_edge(&edge, wanted) {
            return Some(middle);
        }
        if edge[0] < wanted[0] || (edge[0] == wanted[0] && edge[1] < wanted[1]) {
            assert forall|k: int| 0 <= k < middle + 1 implies edge_before(#[trigger] list@[k], *wanted) by {
                if k < middle {
                    assert(edge_before(list@[k], list@[middle as int]));
                }
            }
            low = middle + 1;
        } else {
            proof {
                if edge[0] == wanted[0] && edge[1] == wanted[1] {
                    assert(edge =~= *wanted);
                }
                assert(edge_before(*wanted, edge));
                assert forall|k: int| middle <= k < list@.len() implies edge_before(*wanted, #[trigger] list@[k]) by {
                    if k > middle {
                        assert(edge_before(list@[middle as int], list@[k]));
                    }
                }
            }
            high = middle;
        }
    }
    assert forall|k: int| 0 <= k < list@.len() implies list@[k] != *wanted by {
        if k < low {
            assert(edge_before(list@[k], *wanted));
        } else {
            assert(edge_before(*wanted, list@[k]));
        }
    }
    None
}

pub fn lists_edge(list: &Vec<Edge>, wanted: &Edge) -> (r: bool)
    requires
        edges_ascend(list@),
    ensures
        r == list@.contains(*wanted),
{
    match find_edge(list, wanted) {
        Some(k) => {
            assert(list@[k as int] == *wanted);
            true
        },
        None => false,
    }
}

/// The edges of a chain of vertices.
pub open spec fn chain_links(chain: Seq<usize>) -> Seq<Edge> {
    Seq::new(
        if chain.len() > 0 {
            (chain.len() - 1) as nat
        } else {
            0
        },
        |k: int| key_of(chain[k], chain[k + 1]),
    )
}

/// Appends the edges of a chain.
pub fn append_links(target: &mut Vec<Edge>, chain: &Vec<usize>)
    ensures
        final(target)@ == old(target)@ + chain_links(chain@),
{
    let ghost start = target@;
    let ghost links = chain_links(chain@);
    if chain.len() == 0 {
        assert(start + links =~= start);
        return;
    }
    assert(start + links.take(0) =~= start);
    let mut k: usize = 0;
    while k < chain.len() - 1
        invariant
            chain.len() > 0,
            k <= chain.len() - 1,
            links == chain_links(chain@),
            target@ == start + links.take(k as int),
        decreases chain.len() - k,
    {
        let link: Edge = key(chain[k], chain[k + 1]);
        target.push(link);
        assert(links.take(k + 1) =~= links.take(k as int).push(link));
        assert(target@ =~= start + links.take(k + 1));
        k += 1;
    }
    assert(links.take(k as int) =~= links);
}

pub fn append_edges(target: &mut Vec<Edge>, edges: &Vec<Edge>)
    ensures
        final(target)@ == old(target)@ + edges@,
{
    let ghost start = target@;
    assert(start + edges@.take(0) =~= start);
    let mut k: usize = 0;
    while k < edges.len()
        invariant
            k <= edges.len(),
            target@ == start + edges@.take(k as int),
        decreases edges.len() - k,
    {
        target.push(edges[k]);
        assert(edges@.take(k + 1) =~= edges@.take(k as int).push(edges@[k as int]));
        assert(target@ =~= start + edges@.take(k + 1));
        k += 1;
    }
    assert(edges@.take(k as int) =~= edges@);
}

/// The vertex is an end of one of the edges.
pub open spec fn edge_end(edges: Seq<Edge>, vertex: usize) -> bool {
    exists|k: int| 0 <= k < edges.len() && ((#[trigger] edges[k])[0] == vertex || edges[k][1] == vertex)
}

/// The ends of the edges, each once, ascending.
#[verifier::loop_isolation(false)]
pub fn edge_ends(edges: &Vec<Edge>) -> (r: Vec<usize>)
    ensures
        crate::ordering::ascending_indices(r@),
        forall|vertex: usize| #[trigger] r@.contains(vertex) <==> edge_end(edges@, vertex),
{
    let mut all: Vec<usize> = Vec::new();
    let mut k: usize = 0;
    while k < edges.len()
        invariant
            k <= edges.len(),
            all.len() == 2 * k,
            forall|m: int| 0 <= m < k ==> (#[trigger] edges@[m])[0] == all@[2 * m] && edges@[m][1] == all@[2 * m + 1],
            forall|m: int| 0 <= m < all@.len() ==> edge_end(edges@, #[trigger] all@[m]),
        decreases edges.len() - k,
    {
        let edge: Edge = edges[k];
        let ghost before = all@;
        all.push(edge[0]);
        all.push(edge[1]);
        proof {
            assert(edges@[k as int] == edge);
            assert(edge_end(edges@, edge[0]) && edge_end(edges@, edge[1]));
            assert forall|m: int| 0 <= m < all@.len() implies edge_end(edges@, #[trigger] all@[m]) by {
                if m < before.len() {
                    assert(all@[m] == before[m]);
                }
            }
        }
        k += 1;
    }
    let ghost listed = all@;
    let r = crate::ordering::unique_indices(all);
    assert forall|vertex: usize| #[trigger] r@.contains(vertex) <==> edge_end(edges@, vertex) by {
        assert(r@.contains(vertex) <==> listed.contains(vertex));
        if listed.contains(vertex) {
            let m = choose|m: int| 0 <= m < listed.len() && listed[m] == vertex;
            assert(edge_end(edges@, listed[m]));
        }
        if edge_end(edges@, vertex) {
            let m = choose|m: int| 0 <= m < edges@.len() && ((#[trigger] edges@[m])[0] == vertex || edges@[m][1] == vertex);
            if edges@[m][0] == vertex {
                assert(listed[2 * m] == vertex);
            } else {
                assert(listed[2 * m + 1] == vertex);
            }
        }
    }
    r
}

/// An edge tells which two vertices it joins, and the smaller one comes first.
pub proof fn keys_tell_edges_apart(a: usize, b: usize, c: usize, d: usize)
    ensures
        key_of(a, b)[0] <= key_of(a, b)[1],
        key_of(a, b) == key_of(c, d) <==> (a == c && b == d) || (a == d && b == c),
{
    if key_of(a, b) == key_of(c, d) {
        assert(key_of(a, b)[0] == key_of(c, d)[0]);
        assert(key_of(a, b)[1] == key_of(c, d)[1]);
    }
    if a == d && b == c {
        assert(key_of(a, b) =~= key_of(c, d));
    }
}

/// A chain has an edge between each vertex and the next.
pub proof fn chains_link_neighbours(chain: Seq<usize>)
    ensures
        chain.len() > 0 ==> chain_links(chain).len() == chain.len() - 1,
        forall|k: int|
            0 <= k < chain.len() - 1 ==> {
                let edge = #[trigger] chain_links(chain)[k];
                (edge[0] == chain[k] && edge[1] == chain[k + 1]) || (edge[0] == chain[k + 1] && edge[1] == chain[k])
            },
{
}

/// Edges come by their first vertex, then by their second.
pub proof fn edges_come_in_one_order(a: Edge, b: Edge, c: Edge)
    ensures
        a[0] < b[0] ==> edge_before(a, b),
        a[0] == b[0] ==> (edge_before(a, b) <==> a[1] < b[1]),
        edge_before(a, b) ==> !edge_before(b, a),
        edge_before(a, b) && edge_before(b, c) ==> edge_before(a, c),
        a == b || edge_before(a, b) || edge_before(b, a),
{
    if a[0] == b[0] && a[1] == b[1] {
        assert(a =~= b);
    }
}

} // verus!
