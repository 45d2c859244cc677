//! The constraints of one surface: its boundary, the lines it must be meshed
//! along, and which of them part its material.
use vstd::prelude::*;
use crate::connectivity::{components_of, connected, connected_closed, connected_groups, connected_reflexive, connected_step, connected_transitive, pair_relation, touch};
use crate::edges::{append_edges, append_links, chain_links, distinct_edges, edge_end, edge_ends, edges_ascend, key_of, lists_edges, Edge};
use crate::ordering::{ascending_indices, find_index, lists_index, unique_indices};
use crate::reconstruction::assembly;
use crate::reconstruction::assembly::bars::Contact;
use crate::reconstruction::mesh::chains::{chain_vertices, vertices_of, ChainNode};
use crate::reconstruction::mesh::constraints::{edges_of, find_near, ring_edges, some_near, surface_edges};
use crate::reconstruction::Surface;
use crate::scalar::Scalar;

verus! {

/// All vertices there can be.
pub open spec fn vertex_bound() -> int {
    usize::MAX + 1
}

/// The edges but one, as a relation between vertices.
pub open spec fn joined_without(edges: Seq<Edge>, blocked: Edge) -> spec_fn(int, int) -> bool {
    |x: int, y: int|
        exists|k: int|
            0 <= k < edges.len() && (#[trigger] edges[k]) != blocked && edges[k][0] == x && edges[k][1] == y
}

/// One vertex can be reached from another along the edges without using one of
/// them.
pub open spec fn reaches_without(edges: Seq<Edge>, blocked: Edge, from: usize, to: usize) -> bool {
    connected(vertex_bound(), joined_without(edges, blocked), from as int, to as int)
}

/// A line parts material exactly when it belongs to a path between two distinct
/// boundary vertices. Dangling branches leave the domain whole.
pub open spec fn parts_material(edges: Seq<Edge>, boundary: Seq<Edge>, edge: Edge) -> bool {
    exists|a: usize, b: usize|
        a != b && edge_end(boundary, a) && edge_end(boundary, b) && #[trigger] reaches_without(
            edges,
            edge,
            edge[0],
            a,
        ) && #[trigger] reaches_without(edges, edge, edge[1], b)
}

spec fn joins(edges: Seq<Edge>, blocked: Edge, upto: int, x: usize, y: usize) -> bool {
    exists|k: int|
        0 <= k < upto && (#[trigger] edges[k]) != blocked && edges[k][0] == x && edges[k][1] == y
}

spec fn pair_for(pairs: Seq<(usize, usize)>, ids: Seq<usize>, x: usize, y: usize) -> bool {
    exists|p: int|
        0 <= p < pairs.len() && ids[(#[trigger] pairs[p]).0 as int] == x && ids[pairs[p].1 as int] == y
}

spec fn pairs_sound(pairs: Seq<(usize, usize)>, edges: Seq<Edge>, ids: Seq<usize>, blocked: Edge, upto: int) -> bool {
    forall|p: int|
        0 <= p < pairs.len() ==> (#[trigger] pairs[p]).0 < ids.len() && pairs[p].1 < ids.len() && joins(
            edges,
            blocked,
            upto,
            ids[pairs[p].0 as int],
            ids[pairs[p].1 as int],
        )
}

spec fn pairs_complete(pairs: Seq<(usize, usize)>, edges: Seq<Edge>, ids: Seq<usize>, blocked: Edge, upto: int) -> bool {
    forall|k: int|
        0 <= k < upto && (#[trigger] edges[k]) != blocked ==> pair_for(pairs, ids, edges[k][0], edges[k][1])
}

spec fn local_pairs(pairs: Seq<(usize, usize)>, edges: Seq<Edge>, ids: Seq<usize>, blocked: Edge) -> bool {
    &&& pairs_sound(pairs, edges, ids, blocked, edges.len() as int)
    &&& pairs_complete(pairs, edges, ids, blocked, edges.len() as int)
}

proof fn local_step(pairs: Seq<(usize, usize)>, edges: Seq<Edge>, ids: Seq<usize>, blocked: Edge, x: int, y: int)
    requires
        local_pairs(pairs, edges, ids, blocked),
        pair_relation(pairs)(x, y),
    ensures
        0 <= x < ids.len(),
        0 <= y < ids.len(),
        joined_without(edges, blocked)(ids[x] as int, ids[y] as int),
{
    let p = choose|p: int| 0 <= p < pairs.len() && #[trigger] pairs[p] == (x as usize, y as usize) && pairs[p].0 == x && pairs[p].1 == y;
    assert(joins(edges, blocked, edges.len() as int, ids[pairs[p].0 as int], ids[pairs[p].1 as int]));
}

proof fn local_is_global(pairs: Seq<(usize, usize)>, edges: Seq<Edge>, ids: Seq<usize>, blocked: Edge, i: int, j: int)
    requires
        local_pairs(pairs, edges, ids, blocked),
        0 <= i < ids.len(),
        connected(ids.len() as int, pair_relation(pairs), i, j),
    ensures
        reaches_without(edges, blocked, ids[i], ids[j]),
{
    let n = ids.len() as int;
    let local = pair_relation(pairs);
    let whole = joined_without(edges, blocked);
    let inside = |x: int| connected(vertex_bound(), whole, ids[i] as int, ids[x] as int);
    connected_reflexive(vertex_bound(), whole, ids[i] as int);
    assert forall|x: int, y: int| 0 <= x < n && 0 <= y < n && inside(x) && #[trigger] touch(local, x, y) implies inside(y) by {
        if local(x, y) {
            local_step(pairs, edges, ids, blocked, x, y);
        } else {
            local_step(pairs, edges, ids, blocked, y, x);
        }
        assert(touch(whole, ids[x] as int, ids[y] as int));
        connected_step(vertex_bound(), whole, ids[x] as int, ids[y] as int);
        connected_transitive(vertex_bound(), whole, ids[i] as int, ids[x] as int, ids[y] as int);
    }
    connected_closed(n, local, i, j, inside);
}

proof fn global_step(pairs: Seq<(usize, usize)>, edges: Seq<Edge>, ids: Seq<usize>, blocked: Edge, x: int, y: int) -> (r: (
    int,
    int,
))
    requires
        local_pairs(pairs, edges, ids, blocked),
        joined_without(edges, blocked)(x, y),
    ensures
        0 <= r.0 < ids.len(),
        0 <= r.1 < ids.len(),
        ids[r.0] == x,
        ids[r.1] == y,
        pair_relation(pairs)(r.0, r.1),
{
    let k = choose|k: int| 0 <= k < edges.len() && (#[trigger] edges[k]) != blocked && edges[k][0] == x && edges[k][1] == y;
    assert(pair_for(pairs, ids, edges[k][0], edges[k][1]));
    let p = choose|p: int| 0 <= p < pairs.len() && ids[(#[trigger] pairs[p]).0 as int] == edges[k][0] && ids[pairs[p].1 as int] == edges[k][1];
    let r = (pairs[p].0 as int, pairs[p].1 as int);
    assert(pairs[p] == (r.0 as usize, r.1 as usize));
    r
}

spec fn met_locally(pairs: Seq<(usize, usize)>, ids: Seq<usize>, i: int, x: int) -> bool {
    exists|m: int|
        0 <= m < ids.len() && (#[trigger] ids[m]) == x && connected(ids.len() as int, pair_relation(pairs), i, m)
}

proof fn met_step(
    pairs: Seq<(usize, usize)>,
    edges: Seq<Edge>,
    ids: Seq<usize>,
    blocked: Edge,
    i: int,
    x: int,
    y: int,
)
    requires
        local_pairs(pairs, edges, ids, blocked),
        ascending_indices(ids),
        met_locally(pairs, ids, i, x),
        touch(joined_without(edges, blocked), x, y),
    ensures
        met_locally(pairs, ids, i, y),
{
    let n = ids.len() as int;
    let local = pair_relation(pairs);
    let m = choose|m: int| 0 <= m < n && (#[trigger] ids[m]) == x && connected(n, local, i, m);
    let forward = joined_without(edges, blocked)(x, y);
    let (px, py) = if forward {
        global_step(pairs, edges, ids, blocked, x, y)
    } else {
        let r = global_step(pairs, edges, ids, blocked, y, x);
        (r.1, r.0)
    };
    assert(ids[px] == ids[m]);
    assert(px == m);
    assert(touch(local, m, py));
    connected_step(n, local, m, py);
    connected_transitive(n, local, i, m, py);
    assert(ids[py] == y);
}

proof fn global_is_local(
    pairs: Seq<(usize, usize)>,
    edges: Seq<Edge>,
    ids: Seq<usize>,
    blocked: Edge,
    i: int,
    to: usize,
) -> (j: int)
    requires
        local_pairs(pairs, edges, ids, blocked),
        ascending_indices(ids),
        0 <= i < ids.len(),
        reaches_without(edges, blocked, ids[i], to),
    ensures
        0 <= j < ids.len(),
        ids[j] == to,
        connected(ids.len() as int, pair_relation(pairs), i, j),
{
    let n = ids.len() as int;
    let local = pair_relation(pairs);
    let whole = joined_without(edges, blocked);
    let inside = |x: int| met_locally(pairs, ids, i, x);
    connected_reflexive(n, local, i);
    assert(inside(ids[i] as int));
    assert forall|x: int, y: int|
        0 <= x < vertex_bound() && 0 <= y < vertex_bound() && inside(x) && #[trigger] touch(whole, x, y) implies inside(y) by {
        met_step(pairs, edges, ids, blocked, i, x, y);
    }
    connected_closed(vertex_bound(), whole, ids[i] as int, to as int, inside);
    choose|m: int| 0 <= m < n && (#[trigger] ids[m]) == to && connected(n, local, i, m)
}

fn group_of(groups: &Vec<Vec<usize>>, i: usize, n: Ghost<int>, rel: Ghost<spec_fn(int, int) -> bool>) -> (g: usize)
    requires
        components_of(groups@, n@, rel@),
        i < n@,
    ensures
        g < groups@.len(),
        groups@[g as int]@.contains(i),
{
    let mut g: usize = 0;
    while g < groups.len()
        invariant
            g <= groups.len(),
            components_of(groups@, n@, rel@),
            i < n@,
            forall|h: int| 0 <= h < g ==> !(#[trigger] groups@[h])@.contains(i),
        decreases groups.len() - g,
    {
        if lists_index(&groups[g], i) {
            return g;
        }
        g += 1;
    }
    proof {
        assert(crate::connectivity::in_some_group(groups@, i as int));
        let (h, k) = choose|h: int, k: int| 0 <= h < groups@.len() && 0 <= k < groups@[h]@.len() && #[trigger] groups@[h]@[k] == i as int;
        assert(groups@[h]@[k] == i);
        assert(groups@[h]@.contains(i));
        assert(false);
    }
    0
}

#[verifier::loop_isolation(false)]
fn pairs_without(ids: &Vec<usize>, edges: &Vec<Edge>, e: usize) -> (pairs: Vec<(usize, usize)>)
    requires
        e < edges@.len(),
        edges_ascend(edges@),
        ascending_indices(ids@),
        forall|vertex: usize| #[trigger] ids@.contains(vertex) <==> edge_end(edges@, vertex),
    ensures
        local_pairs(pairs@, edges@, ids@, edges@[e as int]),
{
    let ghost blocked = edges@[e as int];
    let mut pairs: Vec<(usize, usize)> = Vec::new();
    let mut k: usize = 0;
    while k < edges.len()
        invariant
            k <= edges.len(),
            pairs_sound(pairs@, edges@, ids@, blocked, k as int),
            pairs_complete(pairs@, edges@, ids@, blocked, k as int),
        decreases edges.len() - k,
    {
        let edge: Edge = edges[k];
        proof {
            assert(edges@[k as int] == edge);
            assert(edge_end(edges@, edge[0]));
            assert(edge_end(edges@, edge[1]));
            assert(ids@.contains(edge[0]) && ids@.contains(edge[1]));
        }
        let ghost before = pairs@;
        if k != e {
            match (find_index(ids, edge[0]), find_index(ids, edge[1])) {
                (Some(first), Some(second)) => {
                    pairs.push((first, second));
                    proof {
                        assert(edge != blocked) by {
                            if k < e {
                                assert(crate::edges::edge_before(edges@[k as int], edges@[e as int]));
                            } else {
                                assert(crate::edges::edge_before(edges@[e as int], edges@[k as int]));
                            }
                        }
                        assert(pairs@[before.len() as int] == (first, second));
                    }
                },
                _ => {
                    assert(false);
                },
            }
        }
        proof {
            let next = k + 1;
            assert forall|p: int| 0 <= p < pairs@.len() implies (#[trigger] pairs@[p]).0 < ids@.len() && pairs@[p].1 < ids@.len() && joins(
                edges@, blocked, next, ids@[pairs@[p].0 as int], ids@[pairs@[p].1 as int]) by {
                if p < before.len() {
                    assert(pairs@[p] == before[p]);
                    assert(joins(edges@, blocked, k as int, ids@[before[p].0 as int], ids@[before[p].1 as int]));
                    let m = choose|m: int| 0 <= m < k && (#[trigger] edges@[m]) != blocked && edges@[m][0] == ids@[before[p].0 as int] && edges@[m][1] == ids@[before[p].1 as int];
                    assert(edges@[m] != blocked);
                } else {
                    assert(edges@[k as int] != blocked);
                }
            }
            assert forall|m: int| 0 <= m < next && (#[trigger] edges@[m]) != blocked implies pair_for(pairs@, ids@, edges@[m][0], edges@[m][1]) by {
                if m < k {
                    assert(pair_for(before, ids@, edges@[m][0], edges@[m][1]));
                    let p = choose|p: int| 0 <= p < before.len() && ids@[(#[trigger] before[p]).0 as int] == edges@[m][0] && ids@[before[p].1 as int] == edges@[m][1];
                    assert(pairs@[p] == before[p]);
                } else {
                    assert(pairs@[before.len() as int].0 < ids@.len());
                }
            }
        }
        k += 1;
    }
    pairs
}

/// Two groups hold two distinct boundary vertices, one each.
spec fn apart(ids: Seq<usize>, ends: Seq<usize>, left: Seq<usize>, right: Seq<usize>) -> bool {
    exists|x: int, y: int|
        0 <= x < left.len() && 0 <= y < right.len() && ends.contains(ids[#[trigger] left[x] as int])
            && ends.contains(ids[#[trigger] right[y] as int]) && ids[left[x] as int] != ids[right[y] as int]
}

#[verifier::loop_isolation(false)]
fn are_apart(ids: &Vec<usize>, ends: &Vec<usize>, left: &Vec<usize>, right: &Vec<usize>) -> (r: bool)
    requires
        forall|x: int| 0 <= x < left@.len() ==> #[trigger] left@[x] < ids@.len(),
        forall|y: int| 0 <= y < right@.len() ==> #[trigger] right@[y] < ids@.len(),
    ensures
        r == apart(ids@, ends@, left@, right@),
{
    let mut p: usize = 0;
    while p < left.len()
        invariant
            p <= left.len(),
            forall|x: int, y: int|
                0 <= x < p && 0 <= y < right@.len() && ends@.contains(ids@[#[trigger] left@[x] as int]) && ends@.contains(ids@[#[trigger] right@[y] as int]) ==> ids@[left@[x] as int] == ids@[right@[y] as int],
        decreases left.len() - p,
    {
        let a: usize = ids[left[p]];
        if lists_index(ends, a) {
            let mut q: usize = 0;
            while q < right.len()
                invariant
                    p < left.len(),
                    q <= right.len(),
                    forall|y: int| 0 <= y < q && ends@.contains(ids@[#[trigger] right@[y] as int]) ==> a == ids@[right@[y] as int],
                decreases right.len() - q,
            {
                let b: usize = ids[right[q]];
                if lists_index(ends, b) && a != b {
                    assert(ids@[left@[p as int] as int] == a && ids@[right@[q as int] as int] == b);
                    return true;
                }
                q += 1;
            }
        }
        p += 1;
    }
    false
}

/// Whether a line parts the material of its surface.
fn parts(ids: &Vec<usize>, edges: &Vec<Edge>, boundary: &Vec<Edge>, ends: &Vec<usize>, e: usize) -> (r: bool)
    requires
        e < edges@.len(),
        edges_ascend(edges@),
        ascending_indices(ids@),
        forall|vertex: usize| #[trigger] ids@.contains(vertex) <==> edge_end(edges@, vertex),
        forall|vertex: usize| #[trigger] ends@.contains(vertex) <==> edge_end(boundary@, vertex),
    ensures
        r == parts_material(edges@, boundary@, edges@[e as int]),
{
    let edge: Edge = edges[e];
    let ghost n = ids@.len() as int;
    proof {
        assert(edges@[e as int] == edge);
        assert(edge_end(edges@, edge[0]) && edge_end(edges@, edge[1]));
        assert(ids@.contains(edge[0]) && ids@.contains(edge[1]));
        assert(ids.len() <= usize::MAX);
    }
    let (left, right) = match (find_index(ids, edge[0]), find_index(ids, edge[1])) {
        (Some(left), Some(right)) => (left, right),
        _ => {
            assert(false);
            return false;
        },
    };
    let pairs = pairs_without(ids, edges, e);
    let groups = connected_groups(ids.len(), &pairs);
    let ghost rel = pair_relation(pairs@);
    let from_left: usize = group_of(&groups, left, Ghost(n), Ghost(rel));
    let from_right: usize = group_of(&groups, right, Ghost(n), Ghost(rel));
    let ghost gl = groups@[from_left as int]@;
    let ghost gr = groups@[from_right as int]@;
    assert forall|x: int| 0 <= x < gl.len() implies #[trigger] gl[x] < n by {
        assert(groups@[from_left as int]@[x] < n);
    }
    assert forall|y: int| 0 <= y < gr.len() implies #[trigger] gr[y] < n by {
        assert(groups@[from_right as int]@[y] < n);
    }
    let r: bool = are_apart(ids, ends, &groups[from_left], &groups[from_right]);
    proof {
        if r {
            let (x, y) = choose|x: int, y: int|
                0 <= x < gl.len() && 0 <= y < gr.len() && ends@.contains(ids@[#[trigger] gl[x] as int])
                    && ends@.contains(ids@[#[trigger] gr[y] as int]) && ids@[gl[x] as int] != ids@[gr[y] as int];
            let pl = choose|pl: int| 0 <= pl < gl.len() && gl[pl] == left;
            let pr = choose|pr: int| 0 <= pr < gr.len() && gr[pr] == right;
            assert(connected(n, rel, groups@[from_left as int]@[pl] as int, groups@[from_left as int]@[x] as int));
            assert(connected(n, rel, groups@[from_right as int]@[pr] as int, groups@[from_right as int]@[y] as int));
            local_is_global(pairs@, edges@, ids@, edge, left as int, gl[x] as int);
            local_is_global(pairs@, edges@, ids@, edge, right as int, gr[y] as int);
            assert(reaches_without(edges@, edge, edge[0], ids@[gl[x] as int]));
            assert(reaches_without(edges@, edge, edge[1], ids@[gr[y] as int]));
        }
        if parts_material(edges@, boundary@, edge) {
            let (a, b) = choose|a: usize, b: usize|
                a != b && edge_end(boundary@, a) && edge_end(boundary@, b) && #[trigger] reaches_without(edges@, edge, edge[0], a) && #[trigger] reaches_without(edges@, edge, edge[1], b);
            let i = global_is_local(pairs@, edges@, ids@, edge, left as int, a);
            let j = global_is_local(pairs@, edges@, ids@, edge, right as int, b);
            in_same_group(groups@, n, rel, from_left as int, left as int, i);
            in_same_group(groups@, n, rel, from_right as int, right as int, j);
            let x = choose|x: int| 0 <= x < gl.len() && gl[x] == i;
            let y = choose|y: int| 0 <= y < gr.len() && gr[y] == j;
            assert(ends@.contains(a) && ends@.contains(b));
            assert(ids@[gl[x] as int] == a && ids@[gr[y] as int] == b);
        }
    }
    r
}

proof fn in_same_group(groups: Seq<Vec<usize>>, n: int, rel: spec_fn(int, int) -> bool, g: int, i: int, j: int)
    requires
        components_of(groups, n, rel),
        0 <= g < groups.len(),
        0 <= j < n,
        n <= usize::MAX,
        0 <= i < n,
        groups[g]@.contains(i as usize),
        connected(n, rel, i, j),
    ensures
        exists|k: int| 0 <= k < groups[g]@.len() && groups[g]@[k] == j,
{
    assert(crate::connectivity::in_some_group(groups, j));
    let (h, l) = choose|h: int, l: int| 0 <= h < groups.len() && 0 <= l < groups[h]@.len() && #[trigger] groups[h]@[l] == j;
    let k = choose|k: int| 0 <= k < groups[g]@.len() && groups[g]@[k] == i as usize;
    assert(connected(n, rel, groups[g]@[k] as int, groups[h]@[l] as int));
    assert(g == h);
    assert(groups[g]@[l] == j);
}

/// The lines that part material.
pub open spec fn parting(edges: Seq<Edge>, boundary: Seq<Edge>, upto: int) -> Seq<Edge>
    decreases upto,
{
    if upto <= 0 {
        Seq::empty()
    } else if parts_material(edges, boundary, edges[upto - 1]) {
        parting(edges, boundary, upto - 1).push(edges[upto - 1])
    } else {
        parting(edges, boundary, upto - 1)
    }
}

/// The boundary and the lines that part the material, ascending.
#[verifier::loop_isolation(false)]
pub fn barrier_edges(internal: &Vec<Edge>, boundary: &Vec<Edge>) -> (r: Vec<Edge>)
    requires
        edges_ascend(internal@),
    ensures
        lists_edges(r@, boundary@ + parting(internal@, boundary@, internal@.len() as int)),
{
    let ids = edge_ends(internal);
    let ends = edge_ends(boundary);
    let mut all: Vec<Edge> = Vec::new();
    append_edges(&mut all, boundary);
    assert(all@ =~= boundary@ + Seq::<Edge>::empty());
    let mut e: usize = 0;
    while e < internal.len()
        invariant
            e <= internal.len(),
            all@ == boundary@ + parting(internal@, boundary@, e as int),
        decreases internal.len() - e,
    {
        if parts(&ids, internal, boundary, &ends, e) {
            all.push(internal[e]);
            assert(all@ =~= boundary@ + parting(internal@, boundary@, e as int).push(internal@[e as int]));
        }
        e += 1;
    }
    distinct_edges(&all)
}

/// The segments of the edges, edge by edge.
pub open spec fn links_over(edges: Seq<usize>, chains: Seq<Vec<ChainNode>>, upto: int) -> Seq<Edge>
    decreases upto,
{
    if upto <= 0 {
        Seq::empty()
    } else {
        links_over(edges, chains, upto - 1) + chain_links(vertices_of(chains[edges[upto - 1] as int]@))
    }
}

#[verifier::loop_isolation(false)]
fn gather_links(edges: &Vec<usize>, chains: &Vec<Vec<ChainNode>>) -> (r: Vec<Edge>)
    requires
        forall|k: int| 0 <= k < edges@.len() ==> #[trigger] edges@[k] < chains@.len(),
    ensures
        r@ == links_over(edges@, chains@, edges@.len() as int),
{
    let mut r: Vec<Edge> = Vec::new();
    let mut k: usize = 0;
    while k < edges.len()
        invariant
            k <= edges.len(),
            r@ == links_over(edges@, chains@, k as int),
        decreases edges.len() - k,
    {
        let vertices = chain_vertices(&chains[edges[k]]);
        append_links(&mut r, &vertices);
        k += 1;
    }
    r
}

/// The edges between vertices of simplified holes.
pub open spec fn edges_between(edges: Seq<Edge>, vertices: Seq<usize>, upto: int) -> Seq<usize>
    decreases upto,
{
    if upto <= 0 {
        Seq::empty()
    } else if vertices.contains(edges[upto - 1][0]) && vertices.contains(edges[upto - 1][1]) {
        edges_between(edges, vertices, upto - 1).push((upto - 1) as usize)
    } else {
        edges_between(edges, vertices, upto - 1)
    }
}

proof fn edges_between_bounded(edges: Seq<Edge>, vertices: Seq<usize>, upto: int, k: int)
    requires
        0 <= upto <= edges.len() <= usize::MAX,
        0 <= k < edges_between(edges, vertices, upto).len(),
    ensures
        edges_between(edges, vertices, upto)[k] < upto,
    decreases upto,
{
    if upto > 0 {
        let rest = edges_between(edges, vertices, upto - 1);
        if k < rest.len() {
            edges_between_bounded(edges, vertices, upto - 1, k);
        }
    }
}

fn find_edges_between(edges: &Vec<Edge>, vertices: &Vec<usize>) -> (r: Vec<usize>)
    ensures
        r@ == edges_between(edges@, vertices@, edges@.len() as int),
{
    let mut r: Vec<usize> = Vec::new();
    let mut e: usize = 0;
    while e < edges.len()
        invariant
            e <= edges.len(),
            r@ == edges_between(edges@, vertices@, e as int),
        decreases edges.len() - e,
    {
        let edge: Edge = edges[e];
        if lists_index(vertices, edge[0]) && lists_index(vertices, edge[1]) {
            r.push(e);
        }
        e += 1;
    }
    r
}

/// What is measured of an interval contact along the chain of its axis.
#[derive(Debug)]
pub struct IntervalMeasure {
    pub tolerance: Scalar,
    /// Distances of the chain's parameters from the start and the end.
    pub start_gaps: Vec<Scalar>,
    pub end_gaps: Vec<Scalar>,
    /// The interval widened by the tolerance.
    pub low: Scalar,
    pub high: Scalar,
}

pub open spec fn inside_interval(chain: Seq<ChainNode>, measure: IntervalMeasure, k: int) -> bool {
    measure.low.le(chain[k].t) && chain[k + 1].t.le(measure.high)
}

/// The segments of a chain within an interval.
pub open spec fn interval_links(chain: Seq<ChainNode>, measure: IntervalMeasure, upto: int) -> Seq<Edge>
    decreases upto,
{
    if upto <= 0 {
        Seq::empty()
    } else {
        let rest = interval_links(chain, measure, upto - 1);
        if upto < chain.len() && inside_interval(chain, measure, upto - 1) {
            rest.push(key_of(chain[upto - 1].vertex, chain[upto].vertex))
        } else {
            rest
        }
    }
}

fn gather_interval(chain: &Vec<ChainNode>, measure: &IntervalMeasure) -> (r: Vec<Edge>)
    ensures
        r@ == interval_links(chain@, *measure, chain@.len() as int),
{
    let mut r: Vec<Edge> = Vec::new();
    let mut k: usize = 0;
    while k < chain.len()
        invariant
            k <= chain.len(),
            r@ == interval_links(chain@, *measure, k as int),
        decreases chain.len() - k,
    {
        if k + 1 < chain.len() && measure.low.at_most(&chain[k].t) && chain[k + 1].t.at_most(&measure.high) {
            r.push(crate::edges::key(chain[k].vertex, chain[k + 1].vertex));
        }
        k += 1;
    }
    r
}

/// Both ends of the interval are vertices of the chain.
pub open spec fn ends_explicit(measure: IntervalMeasure) -> bool {
    some_near(measure.start_gaps@, measure.tolerance) && some_near(measure.end_gaps@, measure.tolerance)
}

pub open spec fn interval_on(contact: Contact, s: usize) -> Option<usize> {
    match contact {
        Contact::Interval { axis, surface, start_t, end_t, location } => if surface == s {
            Some(axis)
        } else {
            None
        },
        Contact::Point { axis, surface, vertex, t, location } => None,
    }
}

pub open spec fn point_on(contact: Contact, s: usize) -> Option<usize> {
    match contact {
        Contact::Point { axis, surface, vertex, t, location } => if surface == s {
            Some(vertex)
        } else {
            None
        },
        Contact::Interval { axis, surface, start_t, end_t, location } => None,
    }
}

/// The lines of the axes that lie in the surface.
pub open spec fn contact_links(
    contacts: Seq<Contact>,
    s: usize,
    chains: Seq<Vec<ChainNode>>,
    measures: Seq<IntervalMeasure>,
    upto: int,
) -> Seq<Edge>
    decreases upto,
{
    if upto <= 0 {
        Seq::empty()
    } else {
        let rest = contact_links(contacts, s, chains, measures, upto - 1);
        match interval_on(contacts[upto - 1], s) {
            Some(axis) => rest + interval_links(
                chains[axis as int]@,
                measures[upto - 1],
                chains[axis as int]@.len() as int,
            ),
            None => rest,
        }
    }
}

pub open spec fn contact_points(contacts: Seq<Contact>, s: usize, upto: int) -> Seq<usize>
    decreases upto,
{
    if upto <= 0 {
        Seq::empty()
    } else {
        let rest = contact_points(contacts, s, upto - 1);
        match point_on(contacts[upto - 1], s) {
            Some(vertex) => rest.push(vertex),
            None => rest,
        }
    }
}

/// Every interval on the surface has its ends among the vertices of its axis.
pub open spec fn intervals_explicit(contacts: Seq<Contact>, s: usize, measures: Seq<IntervalMeasure>) -> bool {
    forall|c: int|
        0 <= c < contacts.len() && interval_on(#[trigger] contacts[c], s) is Some ==> ends_explicit(measures[c])
}

/// The constraints of a surface, each set ascending.
#[derive(Debug)]
pub struct SurfaceConstraints {
    pub boundary: Vec<Edge>,
    pub internal: Vec<Edge>,
    pub constraints: Vec<Edge>,
    pub barriers: Vec<Edge>,
    pub nodes: Vec<usize>,
}

pub open spec fn internal_links(
    junctions: Seq<usize>,
    edges: Seq<Edge>,
    simplified: Seq<usize>,
    edge_chains: Seq<Vec<ChainNode>>,
    contacts: Seq<Contact>,
    s: usize,
    axis_chains: Seq<Vec<ChainNode>>,
    measures: Seq<IntervalMeasure>,
) -> Seq<Edge> {
    let closed = edges_between(edges, simplified, edges.len() as int);
    links_over(closed, edge_chains, closed.len() as int) + links_over(
        junctions,
        edge_chains,
        junctions.len() as int,
    ) + contact_links(contacts, s, axis_chains, measures, contacts.len() as int)
}

pub open spec fn constrained(
    result: SurfaceConstraints,
    surface: Surface,
    junctions: Seq<usize>,
    edges: Seq<Edge>,
    simplified: Seq<usize>,
    edge_chains: Seq<Vec<ChainNode>>,
    contacts: Seq<Contact>,
    s: usize,
    axis_chains: Seq<Vec<ChainNode>>,
    measures: Seq<IntervalMeasure>,
) -> bool {
    let rings = ring_edges(surface, surface.boundaries@.len() as int);
    let internal = internal_links(
        junctions,
        edges,
        simplified,
        edge_chains,
        contacts,
        s,
        axis_chains,
        measures,
    );
    &&& lists_edges(result.boundary@, links_over(rings, edge_chains, rings.len() as int))
    &&& lists_edges(result.internal@, internal)
    &&& lists_edges(result.constraints@, result.boundary@ + result.internal@)
    &&& lists_edges(
        result.barriers@,
        result.boundary@ + parting(result.internal@, result.boundary@, result.internal@.len() as int),
    )
    &&& ascending_indices(result.nodes@)
    &&& forall|vertex: usize| #[trigger]
        result.nodes@.contains(vertex) <==> simplified.contains(vertex) || contact_points(
            contacts,
            s,
            contacts.len() as int,
        ).contains(vertex) || edge_end(result.constraints@, vertex)
}

pub open spec fn contacts_known(contacts: Seq<Contact>, s: usize, axes: int) -> bool {
    forall|c: int|
        0 <= c < contacts.len() ==> match interval_on(#[trigger] contacts[c], s) {
            Some(axis) => axis < axes,
            None => true,
        }
}

/// Collects the constraints of a surface. Collapsed openings leave their vertices
/// behind as interior constraints; junctions and coplanar axes are lines to mesh
/// along.
#[verifier::loop_isolation(false)]
pub fn surface_constraints(
    surface: &Surface,
    junctions: &Vec<usize>,
    edges: &Vec<Edge>,
    simplified: &Vec<usize>,
    edge_chains: &Vec<Vec<ChainNode>>,
    contacts: &Vec<Contact>,
    s: usize,
    axis_chains: &Vec<Vec<ChainNode>>,
    measures: &Vec<IntervalMeasure>,
) -> (r: Result<SurfaceConstraints, &'static str>)
    requires
        edge_chains@.len() == edges@.len(),
        measures@.len() == contacts@.len(),
        contacts_known(contacts@, s, axis_chains@.len() as int),
        forall|k: int|
            0 <= k < edges_of(*surface, junctions@).len() ==> #[trigger] edges_of(*surface, junctions@)[k]
                < edge_chains@.len(),
    ensures
        match r {
            Ok(result) => intervals_explicit(contacts@, s, measures@) && constrained(
                result,
                *surface,
                junctions@,
                edges@,
                simplified@,
                edge_chains@,
                contacts@,
                s,
                axis_chains@,
                measures@,
            ),
            Err(error) => !intervals_explicit(contacts@, s, measures@) && error@
                == "contact endpoint requires explicit intersection vertex"@,
        },
{
    let nothing: Vec<usize> = Vec::new();
    let ghost all_edges = edges_of(*surface, junctions@);
    let ghost ring = ring_edges(*surface, surface.boundaries@.len() as int);
    let rings = surface_edges(surface, &nothing);
    assert(rings@ =~= ring);
    assert forall|k: int| 0 <= k < rings@.len() implies #[trigger] rings@[k] < edge_chains@.len() by {
        assert(all_edges[k] == rings@[k]);
    }
    let around = gather_links(&rings, edge_chains);
    let boundary = distinct_edges(&around);
    let closed = find_edges_between(edges, simplified);
    assert(edges.len() <= usize::MAX);
    assert forall|k: int| 0 <= k < closed@.len() implies #[trigger] closed@[k] < edge_chains@.len() by {
        edges_between_bounded(edges@, simplified@, edges@.len() as int, k);
    }
    let mut lines = gather_links(&closed, edge_chains);
    assert forall|k: int| 0 <= k < junctions@.len() implies #[trigger] junctions@[k] < edge_chains@.len() by {
        assert(all_edges[ring.len() + k] == junctions@[k]);
    }
    let shared = gather_links(junctions, edge_chains);
    append_edges(&mut lines, &shared);
    let ghost base = lines@;
    let mut vertices: Vec<usize> = Vec::new();
    assert(base + Seq::<Edge>::empty() =~= base);
    let mut c: usize = 0;
    while c < contacts.len()
        invariant
            c <= contacts.len(),
            lines@ == base + contact_links(contacts@, s, axis_chains@, measures@, c as int),
            vertices@ == contact_points(contacts@, s, c as int),
            forall|d: int| 0 <= d < c && interval_on(#[trigger] contacts@[d], s) is Some ==> ends_explicit(measures@[d]),
        decreases contacts.len() - c,
    {
        match contacts[c] {
            Contact::Point { axis: _, surface: owner, vertex, t: _, location: _ } => {
                if owner == s {
                    vertices.push(vertex);
                }
            },
            Contact::Interval { axis, surface: owner, start_t: _, end_t: _, location: _ } => {
                if owner == s {
                    assert(interval_on(contacts@[c as int], s) == Some(axis));
                    if find_near(&measures[c].start_gaps, &measures[c].tolerance).is_none() || find_near(
                        &measures[c].end_gaps,
                        &measures[c].tolerance,
                    ).is_none() {
                        assert(!ends_explicit(measures@[c as int]));
                        return Err("contact endpoint requires explicit intersection vertex");
                    }
                    let own = gather_interval(&axis_chains[axis], &measures[c]);
                    let ghost before = lines@;
                    append_edges(&mut lines, &own);
                    assert(lines@ =~= base + (contact_links(contacts@, s, axis_chains@, measures@, c as int) + own@));
                }
            },
        }
        c += 1;
    }
    let internal = distinct_edges(&lines);
    let mut all: Vec<Edge> = Vec::new();
    append_edges(&mut all, &boundary);
    append_edges(&mut all, &internal);
    assert(all@ =~= boundary@ + internal@);
    let constraints = distinct_edges(&all);
    let barriers = barrier_edges(&internal, &boundary);
    let ghost points = vertices@;
    let mut list = edge_ends(&constraints);
    let ghost ends = list@;
    let mut k: usize = 0;
    while k < vertices.len()
        invariant
            k <= vertices.len(),
            list@ == ends + points.take(k as int),
            vertices@ == points,
        decreases vertices.len() - k,
    {
        list.push(vertices[k]);
        assert(points.take(k + 1) =~= points.take(k as int).push(points[k as int]));
        assert(list@ =~= ends + points.take(k + 1));
        k += 1;
    }
    assert(points.take(k as int) =~= points);
    let mut k: usize = 0;
    while k < simplified.len()
        invariant
            k <= simplified.len(),
            list@ == ends + points + simplified@.take(k as int),
        decreases simplified.len() - k,
    {
        list.push(simplified[k]);
        assert(simplified@.take(k + 1) =~= simplified@.take(k as int).push(simplified@[k as int]));
        assert(list@ =~= ends + points + simplified@.take(k + 1));
        k += 1;
    }
    assert(simplified@.take(k as int) =~= simplified@);
    let ghost listed = list@;
    let nodes = unique_indices(list);
    proof {
        assert forall|vertex: usize| #[trigger] nodes@.contains(vertex) <==> simplified@.contains(vertex) || points.contains(vertex) || edge_end(constraints@, vertex) by {
            assert(nodes@.contains(vertex) <==> listed.contains(vertex));
            assert(ends.contains(vertex) <==> edge_end(constraints@, vertex));
            if listed.contains(vertex) {
                let m = choose|m: int| 0 <= m < listed.len() && listed[m] == vertex;
                if m < ends.len() {
                    assert(ends[m] == vertex);
                } else if m < ends.len() + points.len() {
                    assert(points[m - ends.len()] == vertex);
                } else {
                    assert(simplified@[m - ends.len() - points.len()] == vertex);
                }
            }
            if ends.contains(vertex) {
                let m = choose|m: int| 0 <= m < ends.len() && ends[m] == vertex;
                assert(listed[m] == vertex);
            }
            if points.contains(vertex) {
                let m = choose|m: int| 0 <= m < points.len() && points[m] == vertex;
                assert(listed[ends.len() + m] == vertex);
            }
            if simplified@.contains(vertex) {
                let m = choose|m: int| 0 <= m < simplified@.len() && simplified@[m] == vertex;
                assert(listed[(ends.len() + points.len() + m) as int] == vertex);
            }
        }
    }
    Ok(SurfaceConstraints { boundary, internal, constraints, barriers, nodes })
}

/// The first place of a source node among the vertices.
pub open spec fn first_vertex_of(nodes: Seq<u32>, node: u32, v: int) -> bool {
    &&& 0 <= v < nodes.len()
    &&& nodes[v] == node
    &&& forall|w: int| 0 <= w < v ==> nodes[w] != node
}

pub open spec fn closes_in(hole: assembly::features::SimplifiedHole, surface: Surface) -> bool {
    hole.source_elements@ == surface.source_elements@
}

/// Every node of a hole that was closed in the surface still has a vertex.
pub open spec fn closed_nodes_known(source: assembly::Report, surface: Surface) -> bool {
    forall|h: int, k: int|
        0 <= h < source.simplified_holes@.len() && closes_in(source.simplified_holes@[h], surface) && 0 <= k
            < source.simplified_holes@[h].source_nodes@.len() ==> source.vertex_source_nodes@.contains(
            #[trigger] source.simplified_holes@[h].source_nodes@[k],
        )
}

/// The vertex belongs to a hole that was closed in the surface.
pub open spec fn closed_vertex(source: assembly::Report, surface: Surface, vertex: usize) -> bool {
    exists|h: int, k: int|
        0 <= h < source.simplified_holes@.len() && closes_in(source.simplified_holes@[h], surface) && 0 <= k
            < source.simplified_holes@[h].source_nodes@.len() && first_vertex_of(
            source.vertex_source_nodes@,
            #[trigger] source.simplified_holes@[h].source_nodes@[k],
            vertex as int,
        )
}

fn same_ids(a: &Vec<u32>, b: &Vec<u32>) -> (r: bool)
    ensures
        r == (a@ == b@),
{
    if a.len() != b.len() {
        return false;
    }
    let mut k: usize = 0;
    while k < a.len()
        invariant
            k <= a.len(),
            a@.len() == b@.len(),
            forall|m: int| 0 <= m < k ==> a@[m] == b@[m],
        decreases a.len() - k,
    {
        if a[k] != b[k] {
            return false;
        }
        k += 1;
    }
    assert(a@ =~= b@);
    true
}

fn find_source(nodes: &Vec<u32>, node: u32) -> (r: Option<usize>)
    ensures
        match r {
            Some(v) => first_vertex_of(nodes@, node, v as int),
            None => !nodes@.contains(node),
        },
{
    let mut v: usize = 0;
    while v < nodes.len()
        invariant
            v <= nodes.len(),
            forall|w: int| 0 <= w < v ==> nodes@[w] != node,
        decreases nodes.len() - v,
    {
        if nodes[v] == node {
            return Some(v);
        }
        v += 1;
    }
    None
}

spec fn placed_among(list: Seq<usize>, known: Seq<u32>, node: u32) -> bool {
    exists|i: int| 0 <= i < list.len() && first_vertex_of(known, node, #[trigger] list[i] as int)
}

proof fn placed_grows(before: Seq<usize>, after: Seq<usize>, known: Seq<u32>, node: u32)
    requires
        placed_among(before, known, node),
        before.len() <= after.len(),
        forall|i: int| 0 <= i < before.len() ==> after[i] == before[i],
    ensures
        placed_among(after, known, node),
{
    let i = choose|i: int| 0 <= i < before.len() && first_vertex_of(known, node, #[trigger] before[i] as int);
    assert(after[i] == before[i]);
}

/// The vertices that closed openings leave in a surface, ascending.
#[verifier::loop_isolation(false)]
pub fn closed_vertices(source: &assembly::Report, surface: &Surface) -> (r: Result<Vec<usize>, &'static str>)
    ensures
        match r {
            Ok(list) => closed_nodes_known(*source, *surface) && ascending_indices(list@) && forall|
                vertex: usize,
            | #[trigger] list@.contains(vertex) <==> closed_vertex(*source, *surface, vertex),
            Err(error) => !closed_nodes_known(*source, *surface) && error@
                == "missing simplified-hole junction"@,
        },
{
    let ghost holes = source.simplified_holes@;
    let ghost known = source.vertex_source_nodes@;
    let mut all: Vec<usize> = Vec::new();
    let mut h: usize = 0;
    while h < source.simplified_holes.len()
        invariant
            h <= holes.len(),
            forall|i: int| 0 <= i < all@.len() ==> closed_vertex(*source, *surface, #[trigger] all@[i]),
            forall|g: int, k: int|
                0 <= g < h && closes_in(holes[g], *surface) && 0 <= k < holes[g].source_nodes@.len() ==> placed_among(all@, known, #[trigger] holes[g].source_nodes@[k]),
        decreases holes.len() - h,
    {
        if same_ids(&source.simplified_holes[h].source_elements, &surface.source_elements) {
            let ghost nodes = holes[h as int].source_nodes@;
            let ghost start = all@;
            let mut k: usize = 0;
            while k < source.simplified_holes[h].source_nodes.len()
                invariant
                    h < holes.len(),
                    closes_in(holes[h as int], *surface),
                    nodes == holes[h as int].source_nodes@,
                    k <= nodes.len(),
                    start.len() <= all@.len(),
                    forall|i: int| 0 <= i < start.len() ==> all@[i] == start[i],
                    forall|i: int| 0 <= i < all@.len() ==> closed_vertex(*source, *surface, #[trigger] all@[i]),
                    forall|m: int| 0 <= m < k ==> placed_among(all@, known, #[trigger] nodes[m]),
                decreases nodes.len() - k,
            {
                let ghost before = all@;
                match find_source(&source.vertex_source_nodes, source.simplified_holes[h].source_nodes[k]) {
                    Some(v) => {
                        all.push(v);
                        proof {
                            assert(first_vertex_of(known, holes[h as int].source_nodes@[k as int], v as int));
                            assert(closed_vertex(*source, *surface, v));
                            assert(all@[before.len() as int] == v);
                            assert forall|i: int| 0 <= i < all@.len() implies closed_vertex(*source, *surface, #[trigger] all@[i]) by {
                                if i < before.len() {
                                    assert(all@[i] == before[i]);
                                }
                            }
                            assert forall|m: int| 0 <= m < k + 1 implies placed_among(all@, known, #[trigger] nodes[m]) by {
                                if m < k {
                                    placed_grows(before, all@, known, nodes[m]);
                                } else {
                                    assert(first_vertex_of(known, nodes[m], all@[before.len() as int] as int));
                                }
                            }
                        }
                    },
                    None => {
                        assert(!known.contains(holes[h as int].source_nodes@[k as int]));
                        return Err("missing simplified-hole junction");
                    },
                }
                k += 1;
            }
            proof {
                assert forall|g: int, k: int|
                    0 <= g < h + 1 && closes_in(holes[g], *surface) && 0 <= k < holes[g].source_nodes@.len() implies placed_among(all@, known, #[trigger] holes[g].source_nodes@[k]) by {
                    if g < h {
                        placed_grows(start, all@, known, holes[g].source_nodes@[k]);
                    } else {
                        assert(placed_among(all@, known, nodes[k]));
                    }
                }
            }
        }
        h += 1;
    }
    proof {
        assert(closed_nodes_known(*source, *surface)) by {
            assert forall|g: int, k: int|
                0 <= g < holes.len() && closes_in(holes[g], *surface) && 0 <= k < holes[g].source_nodes@.len() implies known.contains(#[trigger] holes[g].source_nodes@[k]) by {
                assert(placed_among(all@, known, holes[g].source_nodes@[k]));
                let i = choose|i: int| 0 <= i < all@.len() && first_vertex_of(known, holes[g].source_nodes@[k], #[trigger] all@[i] as int);
                assert(known[all@[i] as int] == holes[g].source_nodes@[k]);
            }
        }
    }
    let ghost listed = all@;
    let list = unique_indices(all);
    proof {
        assert forall|vertex: usize| #[trigger] list@.contains(vertex) <==> closed_vertex(*source, *surface, vertex) by {
            assert(list@.contains(vertex) <==> listed.contains(vertex));
            if listed.contains(vertex) {
                let i = choose|i: int| 0 <= i < listed.len() && listed[i] == vertex;
                assert(closed_vertex(*source, *surface, listed[i]));
            }
            if closed_vertex(*source, *surface, vertex) {
                let (g, k) = choose|g: int, k: int|
                    0 <= g < holes.len() && closes_in(holes[g], *surface) && 0 <= k < holes[g].source_nodes@.len() && first_vertex_of(known, #[trigger] holes[g].source_nodes@[k], vertex as int);
                assert(placed_among(listed, known, holes[g].source_nodes@[k]));
                let i = choose|i: int| 0 <= i < listed.len() && first_vertex_of(known, holes[g].source_nodes@[k], #[trigger] listed[i] as int);
                let w = listed[i] as int;
                if w < vertex {
                    assert(known[w] != holes[g].source_nodes@[k]);
                } else if (vertex as int) < w {
                    assert(known[vertex as int] != holes[g].source_nodes@[k]);
                }
                assert(listed[i] == vertex);
            }
        }
    }
    Ok(list)
}

/// A line is a barrier exactly when it parts the material.
pub proof fn barriers_part_the_material(edges: Seq<Edge>, boundary: Seq<Edge>, upto: int, edge: Edge)
    requires
        0 <= upto <= edges.len(),
    ensures
        parting(edges, boundary, upto).contains(edge) <==> edges.take(upto).contains(edge) && parts_material(edges, boundary, edge),
    decreases upto,
{
    if upto > 0 {
        barriers_part_the_material(edges, boundary, upto - 1, edge);
        assert(edges.take(upto) =~= edges.take(upto - 1).push(edges[upto - 1]));
        crate::ordering::pushed_contains(edges.take(upto - 1), edges[upto - 1], edge);
        crate::ordering::pushed_contains(parting(edges, boundary, upto - 1), edges[upto - 1], edge);
    }
}

/// A line between two different vertices of the boundary parts the material.
pub proof fn lines_across_part_the_material(edges: Seq<Edge>, boundary: Seq<Edge>, edge: Edge)
    requires
        edge[0] != edge[1],
        edge_end(boundary, edge[0]),
        edge_end(boundary, edge[1]),
    ensures
        parts_material(edges, boundary, edge),
{
    let rel = joined_without(edges, edge);
    crate::connectivity::connected_reflexive(vertex_bound(), rel, edge[0] as int);
    crate::connectivity::connected_reflexive(vertex_bound(), rel, edge[1] as int);
    assert(reaches_without(edges, edge, edge[0], edge[0]));
    assert(reaches_without(edges, edge, edge[1], edge[1]));
}

/// Edges are meshed along all links of their chains, in order.
pub proof fn edges_are_meshed_along(edges: Seq<usize>, chains: Seq<Vec<ChainNode>>, upto: int)
    requires
        0 <= upto <= edges.len(),
    ensures
        links_over(edges, chains, upto) == Seq::new(upto as nat, |k: int| chain_links(vertices_of(chains[edges[k] as int]@))).flatten(),
    decreases upto,
{
    let parts = Seq::new(upto as nat, |k: int| chain_links(vertices_of(chains[edges[k] as int]@)));
    parts.lemma_flatten_and_flatten_alt_are_equivalent();
    if upto > 0 {
        edges_are_meshed_along(edges, chains, upto - 1);
        let fewer = Seq::new((upto - 1) as nat, |k: int| chain_links(vertices_of(chains[edges[k] as int]@)));
        fewer.lemma_flatten_and_flatten_alt_are_equivalent();
        assert(parts.drop_last() =~= fewer);
    } else {
        assert(links_over(edges, chains, upto) =~= parts.flatten());
    }
}

/// An edge lies between closed vertices exactly when both its ends do.
pub proof fn edges_between_have_both_ends(edges: Seq<Edge>, vertices: Seq<usize>, upto: int, e: usize)
    requires
        0 <= upto <= edges.len() <= usize::MAX,
    ensures
        edges_between(edges, vertices, upto).contains(e) <==> e < upto && vertices.contains(edges[e as int][0]) && vertices.contains(
            edges[e as int][1],
        ),
    decreases upto,
{
    if upto > 0 {
        edges_between_have_both_ends(edges, vertices, upto - 1, e);
        crate::ordering::pushed_contains(edges_between(edges, vertices, upto - 1), (upto - 1) as usize, e);
    }
}

/// A link of a chain is within an interval exactly when both its ends are.
pub proof fn interval_links_lie_within(chain: Seq<ChainNode>, measure: IntervalMeasure, upto: int, edge: Edge)
    requires
        0 <= upto <= chain.len(),
    ensures
        interval_links(chain, measure, upto).contains(edge) <==> exists|k: int|
            0 <= k < upto && k + 1 < chain.len() && measure.low.le((#[trigger] chain[k]).t) && chain[k + 1].t.le(measure.high) && edge
                == key_of(chain[k].vertex, chain[k + 1].vertex),
    decreases upto,
{
    if upto > 0 {
        interval_links_lie_within(chain, measure, upto - 1, edge);
        if upto < chain.len() {
            crate::ordering::pushed_contains(
                interval_links(chain, measure, upto - 1),
                key_of(chain[upto - 1].vertex, chain[upto].vertex),
                edge,
            );
        }
    }
}

/// A surface has a vertex of a contact exactly when the contact is a point on that surface.
pub proof fn contact_points_are_on_the_surface(contacts: Seq<Contact>, s: usize, upto: int, vertex: usize)
    requires
        0 <= upto <= contacts.len(),
    ensures
        contact_points(contacts, s, upto).contains(vertex) <==> exists|c: int|
            0 <= c < upto && point_on(#[trigger] contacts[c], s) == Some(vertex),
    decreases upto,
{
    if upto > 0 {
        contact_points_are_on_the_surface(contacts, s, upto - 1, vertex);
        if let Some(other) = point_on(contacts[upto - 1], s) {
            crate::ordering::pushed_contains(contact_points(contacts, s, upto - 1), other, vertex);
        }
    }
}

/// A contact is an interval or a point on its own surface, and nothing on any other.
pub proof fn contacts_are_on_their_surface(contact: Contact, s: usize)
    ensures
        contact matches Contact::Interval { axis, surface, start_t, end_t, location } ==> point_on(contact, s) is None && (interval_on(
            contact,
            s,
        ) is Some <==> surface == s) && (surface == s ==> interval_on(contact, s) == Some(axis)),
        contact matches Contact::Point { axis, surface, vertex, t, location } ==> interval_on(contact, s) is None && (point_on(
            contact,
            s,
        ) is Some <==> surface == s) && (surface == s ==> point_on(contact, s) == Some(vertex)),
{
}

/// An axis in the surface is meshed along: each of its links within the interval is a line.
pub proof fn axes_are_meshed_along(
    contacts: Seq<Contact>,
    s: usize,
    chains: Seq<Vec<ChainNode>>,
    measures: Seq<IntervalMeasure>,
    upto: int,
    edge: Edge,
)
    requires
        0 <= upto <= contacts.len(),
    ensures
        contact_links(contacts, s, chains, measures, upto).contains(edge) <==> exists|c: int|
            0 <= c < upto && (interval_on(#[trigger] contacts[c], s) matches Some(axis) && interval_links(
                chains[axis as int]@,
                measures[c],
                chains[axis as int]@.len() as int,
            ).contains(edge)),
    decreases upto,
{
    if upto > 0 {
        axes_are_meshed_along(contacts, s, chains, measures, upto - 1, edge);
        let rest = contact_links(contacts, s, chains, measures, upto - 1);
        let all = contact_links(contacts, s, chains, measures, upto);
        if let Some(axis) = interval_on(contacts[upto - 1], s) {
            let more = interval_links(chains[axis as int]@, measures[upto - 1], chains[axis as int]@.len() as int);
            assert(all == rest + more);
            if rest.contains(edge) {
                let m = choose|m: int| 0 <= m < rest.len() && rest[m] == edge;
                assert(all[m] == edge);
            }
            if more.contains(edge) {
                let m = choose|m: int| 0 <= m < more.len() && more[m] == edge;
                assert(all[rest.len() + m] == edge);
            }
            if all.contains(edge) {
                let m = choose|m: int| 0 <= m < all.len() && all[m] == edge;
                if m < rest.len() {
                    assert(rest[m] == edge);
                } else {
                    assert(more[m - rest.len()] == edge);
                }
            }
        }
    }
}

/// A surface is meshed along its boundary and its inner lines, and along nothing else; it has
/// the ends of all of them as nodes, and the vertices of points and of closed openings.
pub proof fn surfaces_are_meshed_along_their_lines(
    result: SurfaceConstraints,
    surface: Surface,
    junctions: Seq<usize>,
    edges: Seq<Edge>,
    simplified: Seq<usize>,
    edge_chains: Seq<Vec<ChainNode>>,
    contacts: Seq<Contact>,
    s: usize,
    axis_chains: Seq<Vec<ChainNode>>,
    measures: Seq<IntervalMeasure>,
    edge: Edge,
    k: int,
    c: int,
)
    requires
        constrained(result, surface, junctions, edges, simplified, edge_chains, contacts, s, axis_chains, measures),
        0 <= k < simplified.len(),
        0 <= c < contacts.len(),
    ensures
        result.constraints@.contains(edge) <==> result.boundary@.contains(edge) || result.internal@.contains(edge),
        result.boundary@.contains(edge) ==> result.barriers@.contains(edge),
        result.barriers@.contains(edge) ==> result.boundary@.contains(edge) || result.internal@.contains(edge),
        result.nodes@.contains(simplified[k]),
        point_on(contacts[c], s) matches Some(vertex) ==> result.nodes@.contains(vertex),
{
    let both = result.boundary@ + result.internal@;
    let parted = parting(result.internal@, result.boundary@, result.internal@.len() as int);
    let bars = result.boundary@ + parted;
    either_edge(result.boundary@, result.internal@, edge);
    either_edge(result.boundary@, parted, edge);
    barriers_part_the_material(result.internal@, result.boundary@, result.internal@.len() as int, edge);
    assert(result.internal@.take(result.internal@.len() as int) =~= result.internal@);
    assert(result.constraints@.contains(edge) <==> both.contains(edge));
    assert(result.barriers@.contains(edge) <==> bars.contains(edge));
    assert(simplified.contains(simplified[k]));
    if let Some(vertex) = point_on(contacts[c], s) {
        contact_points_are_on_the_surface(contacts, s, contacts.len() as int, vertex);
        assert(contact_points(contacts, s, contacts.len() as int).contains(vertex));
    }
}

proof fn either_edge(a: Seq<Edge>, b: Seq<Edge>, edge: Edge)
    ensures
        (a + b).contains(edge) <==> a.contains(edge) || b.contains(edge),
{
    let all = a + b;
    if a.contains(edge) {
        let m = choose|m: int| 0 <= m < a.len() && a[m] == edge;
        assert(all[m] == edge);
    }
    if b.contains(edge) {
        let m = choose|m: int| 0 <= m < b.len() && b[m] == edge;
        assert(all[a.len() + m] == edge);
    }
    if all.contains(edge) {
        let m = choose|m: int| 0 <= m < all.len() && all[m] == edge;
        if m < a.len() {
            assert(a[m] == edge);
        } else {
            assert(b[m - a.len()] == edge);
        }
    }
}

/// An interval has its ends among the vertices of its axis exactly when one is near its start
/// and one near its end.
pub proof fn interval_ends_are_vertices(measure: IntervalMeasure)
    ensures
        ends_explicit(measure) <==> (exists|k: int| 0 <= k < measure.start_gaps@.len() && (#[trigger] measure.start_gaps@[k]).le(
            measure.tolerance,
        )) && (exists|k: int| 0 <= k < measure.end_gaps@.len() && (#[trigger] measure.end_gaps@[k]).le(measure.tolerance)),
{
}

/// The vertices that closed openings leave are the first ones of their nodes, in the surface
/// that has the elements of the opening.
pub proof fn closed_openings_leave_their_vertices(source: assembly::Report, surface: Surface, h: int, k: int, vertex: usize)
    requires
        0 <= h < source.simplified_holes@.len(),
        source.simplified_holes@[h].source_elements@ == surface.source_elements@,
        0 <= k < source.simplified_holes@[h].source_nodes@.len(),
        vertex < source.vertex_source_nodes@.len(),
        source.vertex_source_nodes@[vertex as int] == source.simplified_holes@[h].source_nodes@[k],
        source.vertex_source_nodes@.no_duplicates(),
    ensures
        closed_vertex(source, surface, vertex),
{
    assert(closes_in(source.simplified_holes@[h], surface));
    assert(first_vertex_of(source.vertex_source_nodes@, source.simplified_holes@[h].source_nodes@[k], vertex as int));
}

} // verus!
