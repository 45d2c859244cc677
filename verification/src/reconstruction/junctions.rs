//! Explicit surface-surface junction topology.
//!
//! Panels of a source mesh may intersect without sharing nodes or edges. Finite
//! intersection segments get vertices of their own, boundary edges are split at
//! them, and the same model edge is registered with every owner. Numerical
//! coincidence alone is never a weld.
pub mod conform;

use vstd::prelude::*;
use crate::ordering::{ascending_indices_determined, key_before, lists_index, sorted_indices, stable_order, unique_indices};
use crate::reconstruction::{edge_key, interned, EdgeUse};
use crate::scalar::Scalar;

verus! {

#[derive(Debug, Clone, Copy, PartialEq, Eq, Structural)]
pub enum Kind {
    BoundaryJunction,
    TJunction,
    Crossing,
}

#[derive(Debug, Clone, Copy)]
pub struct Segment {
    pub surfaces: [usize; 2],
    pub kind: Kind,
    pub vertices: [usize; 2],
    pub length: Scalar,
}

#[derive(Debug)]
pub struct Report {
    pub candidate_pairs: usize,
    pub detected_segments: usize,
    pub generated_vertices: usize,
    pub split_boundary_edges: usize,
    pub shared_constraint_edges: usize,
    pub segments: Vec<Segment>,
}

pub open spec fn junction_kind(first_on_boundary: bool, second_on_boundary: bool) -> Kind {
    if first_on_boundary && second_on_boundary {
        Kind::BoundaryJunction
    } else if first_on_boundary || second_on_boundary {
        Kind::TJunction
    } else {
        Kind::Crossing
    }
}

/// How two surfaces meet, by whether the middle of their common segment lies on
/// the boundary of each.
pub fn classify(first_on_boundary: bool, second_on_boundary: bool) -> (r: Kind)
    ensures
        r == junction_kind(first_on_boundary, second_on_boundary),
{
    if first_on_boundary && second_on_boundary {
        Kind::BoundaryJunction
    } else if first_on_boundary || second_on_boundary {
        Kind::TJunction
    } else {
        Kind::Crossing
    }
}

pub open spec fn use_start(edges: Seq<[usize; 2]>, edge_use: EdgeUse) -> usize {
    if edge_use.reversed {
        edges[edge_use.edge as int][1]
    } else {
        edges[edge_use.edge as int][0]
    }
}

pub open spec fn use_end(edges: Seq<[usize; 2]>, edge_use: EdgeUse) -> usize {
    if edge_use.reversed {
        edges[edge_use.edge as int][0]
    } else {
        edges[edge_use.edge as int][1]
    }
}

/// The first fault of a boundary from its edge `from` on.
pub open spec fn boundary_fault(ring: Seq<EdgeUse>, edges: Seq<[usize; 2]>, from: int) -> Option<Seq<char>>
    decreases ring.len() - from,
{
    if from >= ring.len() {
        if use_end(edges, ring[ring.len() - 1]) != use_start(edges, ring[0]) {
            Some("open surface boundary"@)
        } else {
            None
        }
    } else if ring[from].edge >= edges.len() {
        Some("invalid surface boundary edge"@)
    } else if from > 0 && use_end(edges, ring[from - 1]) != use_start(edges, ring[from]) {
        Some("disconnected surface boundary"@)
    } else {
        boundary_fault(ring, edges, from + 1)
    }
}

/// Why a boundary is no closed ring; `None` where it is one.
pub open spec fn ring_fault(ring: Seq<EdgeUse>, edges: Seq<[usize; 2]>) -> Option<Seq<char>> {
    if ring.len() < 3 {
        Some("invalid surface boundary"@)
    } else {
        boundary_fault(ring, edges, 0)
    }
}

pub open spec fn ring_starts(vertices: Seq<usize>, ring: Seq<EdgeUse>, edges: Seq<[usize; 2]>) -> bool {
    &&& vertices.len() == ring.len()
    &&& forall|i: int| 0 <= i < ring.len() ==> #[trigger] vertices[i] == use_start(edges, ring[i])
}

/// The vertices of a boundary ring, in the order in which it runs.
#[verifier::loop_isolation(false)]
pub fn ordered_ring_vertices(ring: &Vec<EdgeUse>, edges: &Vec<[usize; 2]>) -> (r: Result<
    Vec<usize>,
    &'static str,
>)
    ensures
        match r {
            Ok(vertices) => ring_fault(ring@, edges@) is None && ring_starts(vertices@, ring@, edges@),
            Err(error) => ring_fault(ring@, edges@) == Some(error@),
        },
{
    if ring.len() < 3 {
        return Err("invalid surface boundary");
    }
    let mut vertices: Vec<usize> = Vec::new();
    let mut last: usize = 0;
    let mut i: usize = 0;
    while i < ring.len()
        invariant
            i <= ring.len(),
            vertices.len() == i,
            i > 0 ==> last == use_end(edges@, ring@[i - 1]),
            boundary_fault(ring@, edges@, 0) == boundary_fault(ring@, edges@, i as int),
            forall|j: int| 0 <= j < i ==> #[trigger] vertices@[j] == use_start(edges@, ring@[j]),
        decreases ring.len() - i,
    {
        let index: usize = ring[i].edge;
        if index >= edges.len() {
            return Err("invalid surface boundary edge");
        }
        let edge: [usize; 2] = edges[index];
        let mut start: usize = edge[0];
        let mut end: usize = edge[1];
        if ring[i].reversed {
            start = edge[1];
            end = edge[0];
        }
        if i > 0 && last != start {
            return Err("disconnected surface boundary");
        }
        vertices.push(start);
        last = end;
        i += 1;
    }
    if last != vertices[0] {
        return Err("open surface boundary");
    }
    Ok(vertices)
}

/// A ring that was taken runs from each edge to the next and closes.
pub proof fn taken_ring_closes(ring: Seq<EdgeUse>, edges: Seq<[usize; 2]>, i: int)
    requires
        ring_fault(ring, edges) is None,
        0 <= i < ring.len(),
    ensures
        ring[i].edge < edges.len(),
        use_end(edges, ring[i]) == use_start(
            edges,
            ring[if i + 1 < ring.len() {
                i + 1
            } else {
                0
            }],
        ),
{
    no_boundary_fault(ring, edges, 0, i);
    if i + 1 < ring.len() {
        no_boundary_fault(ring, edges, 0, i + 1);
    } else {
        no_boundary_fault(ring, edges, 0, ring.len() as int);
    }
}

proof fn no_boundary_fault(ring: Seq<EdgeUse>, edges: Seq<[usize; 2]>, from: int, to: int)
    requires
        0 <= from <= to <= ring.len(),
        boundary_fault(ring, edges, from) is None,
    ensures
        boundary_fault(ring, edges, to) is None,
    decreases to - from,
{
    if from < to {
        no_boundary_fault(ring, edges, from + 1, to);
    }
}

/// A vertex on a segment, with its parameter there.
#[derive(Debug, Clone, Copy)]
pub struct Placed {
    pub vertex: usize,
    pub t: Scalar,
}

pub open spec fn placed_keys(keys: Seq<i128>, items: Seq<Placed>) -> bool {
    &&& keys.len() == items.len()
    &&& forall|k: int|
        0 <= k < items.len() ==> #[trigger] keys[k] == items[k].t.total_rank() * 0x1_0000_0000_0000_0000
            + items[k].vertex
}

/// By ascending parameter, then by vertex.
pub open spec fn along(order: Seq<usize>, items: Seq<Placed>) -> bool {
    exists|keys: Seq<i128>| #[trigger] placed_keys(keys, items) && stable_order(keys, order)
}

/// The vertices in order, each run of one vertex taken once.
pub open spec fn without_repeats(order: Seq<usize>, items: Seq<Placed>, upto: int) -> Seq<usize>
    decreases upto,
{
    if upto <= 0 {
        Seq::empty()
    } else {
        let rest = without_repeats(order, items, upto - 1);
        let vertex = items[order[upto - 1] as int].vertex;
        if rest.len() > 0 && rest.last() == vertex {
            rest
        } else {
            rest.push(vertex)
        }
    }
}

pub open spec fn chain_of(chain: Seq<usize>, items: Seq<Placed>) -> bool {
    exists|order: Seq<usize>| #[trigger]
        along(order, items) && chain == without_repeats(order, items, items.len() as int)
}

/// The vertices of a segment in the order in which it passes them.
#[verifier::loop_isolation(false)]
pub fn ordered_chain(items: &Vec<Placed>) -> (chain: Vec<usize>)
    ensures
        chain_of(chain@, items@),
{
    let mut keys: Vec<i128> = Vec::new();
    let mut k: usize = 0;
    while k < items.len()
        invariant
            k <= items.len(),
            keys.len() == k,
            forall|m: int|
                0 <= m < k ==> #[trigger] keys@[m] == items@[m].t.total_rank() * 0x1_0000_0000_0000_0000 + items@[m].vertex,
        decreases items.len() - k,
    {
        let rank: i64 = items[k].t.total_key();
        let vertex: usize = items[k].vertex;
        keys.push((rank as i128) * 0x1_0000_0000_0000_0000 + (vertex as i128));
        k += 1;
    }
    let order = sorted_indices(&keys);
    assert(placed_keys(keys@, items@));
    let mut chain: Vec<usize> = Vec::new();
    let mut k: usize = 0;
    while k < order.len()
        invariant
            k <= order.len(),
            chain@ == without_repeats(order@, items@, k as int),
        decreases order.len() - k,
    {
        let vertex: usize = items[order[k]].vertex;
        if chain.len() == 0 || chain[chain.len() - 1] != vertex {
            chain.push(vertex);
        }
        k += 1;
    }
    assert(along(order@, items@));
    chain
}

/// A split vertex that lies on a boundary edge.
#[derive(Debug, Clone, Copy)]
pub struct SplitCandidate {
    pub vertex: usize,
    pub t: Scalar,
    pub from_start: Scalar,
    pub from_end: Scalar,
}

/// Far enough from both ends of the edge, and none of them.
pub open spec fn splits_edge(candidate: SplitCandidate, a: usize, b: usize, minimum_edge: Scalar) -> bool {
    &&& candidate.vertex != a
    &&& candidate.vertex != b
    &&& minimum_edge.le(candidate.from_start)
    &&& minimum_edge.le(candidate.from_end)
}

pub open spec fn splitting(
    candidates: Seq<SplitCandidate>,
    a: usize,
    b: usize,
    minimum_edge: Scalar,
    upto: int,
) -> Seq<Placed>
    decreases upto,
{
    if upto <= 0 {
        Seq::empty()
    } else {
        let rest = splitting(candidates, a, b, minimum_edge, upto - 1);
        if splits_edge(candidates[upto - 1], a, b, minimum_edge) {
            rest.push(Placed { vertex: candidates[upto - 1].vertex, t: candidates[upto - 1].t })
        } else {
            rest
        }
    }
}

pub open spec fn next_of(ring: Seq<usize>, i: int) -> usize {
    ring[if i + 1 < ring.len() {
        i + 1
    } else {
        0
    }]
}

/// Chains of split vertices on the edges of a ring.
pub open spec fn edge_chains(
    chains: Seq<Seq<usize>>,
    ring: Seq<usize>,
    candidates: Seq<Vec<SplitCandidate>>,
    minimum_edge: Scalar,
) -> bool {
    &&& chains.len() == ring.len()
    &&& forall|i: int|
        0 <= i < ring.len() ==> chain_of(
            #[trigger] chains[i],
            splitting(
                candidates[i]@,
                ring[i],
                next_of(ring, i),
                minimum_edge,
                candidates[i]@.len() as int,
            ),
        )
}

/// The ring with the chains of its edges put in.
pub open spec fn expanded(ring: Seq<usize>, chains: Seq<Seq<usize>>, upto: int) -> Seq<usize>
    decreases upto,
{
    if upto <= 0 {
        Seq::empty()
    } else {
        expanded(ring, chains, upto - 1).push(ring[upto - 1]) + chains[upto - 1]
    }
}

/// Splits the edges of a ring at the vertices that lie on them.
#[verifier::loop_isolation(false)]
pub fn expand_ring(ring: &Vec<usize>, candidates: &Vec<Vec<SplitCandidate>>, minimum_edge: &Scalar) -> (r: Vec<
    usize,
>)
    requires
        candidates@.len() == ring@.len(),
    ensures
        exists|chains: Seq<Seq<usize>>| #[trigger]
            edge_chains(chains, ring@, candidates@, *minimum_edge) && r@ == expanded(
                ring@,
                chains,
                ring@.len() as int,
            ),
{
    let mut r: Vec<usize> = Vec::new();
    let ghost mut chains: Seq<Seq<usize>> = Seq::empty();
    let mut i: usize = 0;
    while i < ring.len()
        invariant
            i <= ring.len(),
            chains.len() == i,
            r@ == expanded(ring@, chains, i as int),
            forall|j: int|
                0 <= j < i ==> chain_of(
                    #[trigger] chains[j],
                    splitting(candidates@[j]@, ring@[j], next_of(ring@, j), *minimum_edge, candidates@[j]@.len() as int),
                ),
        decreases ring.len() - i,
    {
        let a: usize = ring[i];
        let b: usize = if i + 1 < ring.len() {
            ring[i + 1]
        } else {
            ring[0]
        };
        let mut items: Vec<Placed> = Vec::new();
        let mut k: usize = 0;
        while k < candidates[i].len()
            invariant
                i < ring.len(),
                k <= candidates@[i as int]@.len(),
                items@ == splitting(candidates@[i as int]@, a, b, *minimum_edge, k as int),
            decreases candidates@[i as int]@.len() - k,
        {
            let candidate = candidates[i][k];
            if candidate.vertex != a && candidate.vertex != b && minimum_edge.at_most(&candidate.from_start)
                && minimum_edge.at_most(&candidate.from_end) {
                items.push(Placed { vertex: candidate.vertex, t: candidate.t });
            }
            k += 1;
        }
        let chain = ordered_chain(&items);
        let ghost before = r@;
        r.push(a);
        let ghost opened = r@;
        assert(opened + chain@.take(0) =~= opened);
        let mut k: usize = 0;
        while k < chain.len()
            invariant
                k <= chain.len(),
                r@ == opened + chain@.take(k as int),
            decreases chain.len() - k,
        {
            r.push(chain[k]);
            assert(chain@.take(k + 1) =~= chain@.take(k as int).push(chain@[k as int]));
            assert(r@ =~= opened + chain@.take(k + 1));
            k += 1;
        }
        proof {
            assert(chain@.take(k as int) =~= chain@);
            let old_chains = chains;
            chains = chains.push(chain@);
            expanded_extends(ring@, old_chains, chains, i as int);
        }
        i += 1;
    }
    assert(edge_chains(chains, ring@, candidates@, *minimum_edge));
    r
}

proof fn expanded_extends(ring: Seq<usize>, a: Seq<Seq<usize>>, b: Seq<Seq<usize>>, upto: int)
    requires
        0 <= upto <= a.len() <= b.len(),
        forall|i: int| 0 <= i < a.len() ==> a[i] == b[i],
    ensures
        expanded(ring, a, upto) == expanded(ring, b, upto),
    decreases upto,
{
    if upto > 0 {
        expanded_extends(ring, a, b, upto - 1);
    }
}

/// A ring without a vertex on its edges stays as it is.
pub proof fn unsplit_ring_stays(ring: Seq<usize>, chains: Seq<Seq<usize>>, upto: int)
    requires
        0 <= upto <= ring.len(),
        chains.len() == ring.len(),
        forall|i: int| 0 <= i < ring.len() ==> (#[trigger] chains[i]).len() == 0,
    ensures
        expanded(ring, chains, upto) == ring.take(upto),
    decreases upto,
{
    if upto > 0 {
        unsplit_ring_stays(ring, chains, upto - 1);
        assert(chains[upto - 1] =~= Seq::<usize>::empty());
        assert(ring.take(upto) =~= ring.take(upto - 1).push(ring[upto - 1]) + chains[upto - 1]);
    } else {
        assert(ring.take(0) =~= Seq::<usize>::empty());
    }
}

pub open spec fn within(distance: Scalar, tolerance: Scalar) -> bool {
    distance.le(tolerance)
}

/// The first of the nearest points within the tolerance.
pub open spec fn nearest_is(distances: Seq<Scalar>, tolerance: Scalar, i: int) -> bool {
    &&& 0 <= i < distances.len()
    &&& within(distances[i], tolerance)
    &&& forall|j: int|
        0 <= j < distances.len() && within(#[trigger] distances[j], tolerance) ==> distances[i].total_rank()
            <= distances[j].total_rank()
    &&& forall|j: int|
        0 <= j < i && within(#[trigger] distances[j], tolerance) ==> distances[i].total_rank()
            < distances[j].total_rank()
}

/// Finds the vertex to reuse for a point, if one is near enough.
#[verifier::loop_isolation(false)]
pub fn nearest(distances: &Vec<Scalar>, tolerance: &Scalar) -> (r: Option<usize>)
    ensures
        match r {
            Some(i) => nearest_is(distances@, *tolerance, i as int),
            None => forall|j: int| 0 <= j < distances@.len() ==> !within(#[trigger] distances@[j], *tolerance),
        },
{
    let mut found: Option<usize> = None;
    let mut i: usize = 0;
    while i < distances.len()
        invariant
            i <= distances.len(),
            match found {
                None => forall|j: int| 0 <= j < i ==> !within(#[trigger] distances@[j], *tolerance),
                Some(k) => {
                    &&& k < i
                    &&& within(distances@[k as int], *tolerance)
                    &&& forall|j: int|
                        0 <= j < i && within(#[trigger] distances@[j], *tolerance) ==> distances@[k as int].total_rank() <= distances@[j].total_rank()
                    &&& forall|j: int|
                        0 <= j < k && within(#[trigger] distances@[j], *tolerance) ==> distances@[k as int].total_rank() < distances@[j].total_rank()
                },
            },
        decreases distances.len() - i,
    {
        if distances[i].at_most(tolerance) {
            match found {
                None => {
                    found = Some(i);
                },
                Some(k) => {
                    if distances[i].total_key() < distances[k].total_key() {
                        found = Some(i);
                    }
                },
            }
        }
        i += 1;
    }
    found
}

pub open spec fn edge_known(edges: Seq<[usize; 2]>, edge: usize, a: usize, b: usize) -> bool {
    edge < edges.len() && edges[edge as int] == edge_key(a, b)
}

/// Makes sure that the edge between two vertices is listed.
pub fn intern_edge(edges: &mut Vec<[usize; 2]>, a: usize, b: usize) -> (r: Result<usize, &'static str>)
    ensures
        match r {
            Ok(edge) => a != b && final(edges)@ == interned(old(edges)@, edge_key(a, b)) && edge_known(
                final(edges)@,
                edge,
                a,
                b,
            ),
            Err(error) => a == b && error@ == "degenerate junction edge"@ && final(edges)@ == old(edges)@,
        },
{
    if a == b {
        return Err("degenerate junction edge");
    }
    let key: [usize; 2] = if a < b {
        [a, b]
    } else {
        [b, a]
    };
    assert(key =~= edge_key(a, b));
    let mut e: usize = 0;
    while e < edges.len()
        invariant
            e <= edges.len(),
            edges@ == old(edges)@,
            a != b,
            key == edge_key(a, b),
            forall|f: int| 0 <= f < e ==> edges@[f] != key,
        decreases edges.len() - e,
    {
        let edge: [usize; 2] = edges[e];
        if edge[0] == key[0] && edge[1] == key[1] {
            assert(edge =~= key);
            assert(edges@[e as int] == key);
            return Ok(e);
        }
        assert(edges@[e as int] != key);
        e += 1;
    }
    assert(!edges@.contains(key));
    let number: usize = edges.len();
    edges.push(key);
    Ok(number)
}

/// The edges of a chain that are long enough to be kept: their places in it.
pub open spec fn kept_links(lengths: Seq<Scalar>, minimum_edge: Scalar, upto: int) -> Seq<int>
    decreases upto,
{
    if upto <= 0 {
        Seq::empty()
    } else if lengths[upto - 1].lt(minimum_edge) {
        kept_links(lengths, minimum_edge, upto - 1)
    } else {
        kept_links(lengths, minimum_edge, upto - 1).push(upto - 1)
    }
}

pub open spec fn chain_edges(edges: Seq<[usize; 2]>, chain: Seq<usize>, links: Seq<int>, upto: int) -> Seq<
    [usize; 2],
>
    decreases upto,
{
    if upto <= 0 {
        edges
    } else {
        let k = links[upto - 1];
        interned(chain_edges(edges, chain, links, upto - 1), edge_key(chain[k], chain[k + 1]))
    }
}

/// The first links of a chain lead from one vertex to another.
pub open spec fn links_apart(chain: Seq<usize>, links: Seq<int>, upto: int) -> bool {
    forall|m: int| 0 <= m < upto ==> chain[#[trigger] links[m]] != chain[links[m] + 1]
}

/// The edges registered with surfaces as junctions, beside the edges of a model.
#[derive(Debug)]
pub struct Junctions {
    pub edges: Vec<[usize; 2]>,
    /// Junction edges of each surface, ascending.
    pub of_surface: Vec<Vec<usize>>,
    /// All junction edges, ascending.
    pub shared: Vec<usize>,
    pub segments: Vec<Segment>,
}

/// `after` lists what `before` did and the edges of the kept links.
pub open spec fn with_links(
    after: Seq<usize>,
    before: Seq<usize>,
    edges: Seq<[usize; 2]>,
    chain: Seq<usize>,
    links: Seq<int>,
) -> bool {
    &&& crate::ordering::ascending_indices(after)
    &&& forall|e: usize| #[trigger]
        after.contains(e) <==> before.contains(e) || link_edge(edges, chain, links, links.len() as int, e)
}

/// The edge is that of one of the first kept links.
pub open spec fn link_edge(
    edges: Seq<[usize; 2]>,
    chain: Seq<usize>,
    links: Seq<int>,
    upto: int,
    e: usize,
) -> bool {
    exists|k: int|
        0 <= k < upto && edge_known(edges, e, chain[#[trigger] links[k]], chain[links[k] + 1])
}

pub open spec fn edges_distinct(edges: Seq<[usize; 2]>) -> bool {
    forall|e: int, f: int| 0 <= e < f < edges.len() ==> edges[e] != edges[f]
}

pub(crate) proof fn interned_keeps(edges: Seq<[usize; 2]>, key: [usize; 2])
    requires
        edges_distinct(edges),
    ensures
        edges_distinct(interned(edges, key)),
        edges.len() <= interned(edges, key).len(),
        forall|e: int| 0 <= e < edges.len() ==> interned(edges, key)[e] == edges[e],
{
    if !edges.contains(key) {
        assert forall|e: int, f: int| 0 <= e < f < edges.push(key).len() implies edges.push(key)[e] != edges.push(key)[f] by {
            if f == edges.len() {
                assert(edges[e] != key);
            }
        }
    }
}

fn extended(list: &Vec<usize>, added: &Vec<usize>) -> (r: Vec<usize>)
    ensures
        crate::ordering::ascending_indices(r@),
        forall|e: usize| #[trigger] r@.contains(e) <==> list@.contains(e) || added@.contains(e),
{
    let mut all = crate::ordering::copy_indices(list);
    let mut k: usize = 0;
    while k < added.len()
        invariant
            k <= added.len(),
            all@ == list@ + added@.take(k as int),
        decreases added.len() - k,
    {
        all.push(added[k]);
        assert(added@.take(k + 1) =~= added@.take(k as int).push(added@[k as int]));
        assert(all@ =~= list@ + added@.take(k + 1));
        k += 1;
    }
    assert(added@.take(k as int) =~= added@);
    let ghost listed = all@;
    let r = unique_indices(all);
    assert forall|e: usize| #[trigger] r@.contains(e) <==> list@.contains(e) || added@.contains(e) by {
        assert(r@.contains(e) <==> listed.contains(e));
        if listed.contains(e) {
            let m = choose|m: int| 0 <= m < listed.len() && listed[m] == e;
            if m < list@.len() {
                assert(list@[m] == e);
            } else {
                assert(added@[m - list@.len()] == e);
            }
        }
        if list@.contains(e) {
            let m = choose|m: int| 0 <= m < list@.len() && list@[m] == e;
            assert(listed[m] == e);
        }
        if added@.contains(e) {
            let m = choose|m: int| 0 <= m < added@.len() && added@[m] == e;
            assert(listed[list@.len() + m] == e);
        }
    }
    r
}

impl Junctions {
    pub open spec fn well_formed(&self) -> bool {
        edges_distinct(self.edges@)
    }

    /// Registers the chain of an intersection segment with both its surfaces.
    /// `lengths` are those of its links; a link that is too short is left out.
    #[verifier::loop_isolation(false)]
    pub fn add_segment(&mut self, segment: Segment, chain: &Vec<usize>, lengths: &Vec<Scalar>, minimum_edge: &Scalar) -> (r:
        Result<(), &'static str>)
        requires
            old(self).well_formed(),
            lengths@.len() + 1 == chain@.len() || (chain@.len() == 0 && lengths@.len() == 0),
            segment.surfaces[0] < old(self).of_surface@.len(),
            segment.surfaces[1] < old(self).of_surface@.len(),
            segment.surfaces[0] != segment.surfaces[1],
        ensures
            ({
                let links = kept_links(lengths@, *minimum_edge, lengths@.len() as int);
                match r {
                    Ok(_) => final(self).well_formed() && segment_added(
                        *old(self),
                        *final(self),
                        segment,
                        chain@,
                        lengths@,
                        *minimum_edge,
                    ),
                    Err(error) => {
                        &&& error@ == "degenerate junction edge"@
                        &&& final(self).of_surface == old(self).of_surface
                        &&& final(self).shared == old(self).shared
                        &&& final(self).segments == old(self).segments
                        &&& exists|k: int|
                            0 <= k < links.len() && chain@[#[trigger] links[k]] == chain@[links[k] + 1]
                                && links_apart(chain@, links, k) && final(self).edges@ == chain_edges(
                                old(self).edges@,
                                chain@,
                                links,
                                k,
                            )
                    },
                }
            }),
    {
        let ghost start = *self;
        let ghost links = kept_links(lengths@, *minimum_edge, lengths@.len() as int);
        let mut added: Vec<usize> = Vec::new();
        let ghost mut done: int = 0;
        let mut k: usize = 0;
        while k < lengths.len()
            invariant
                k <= lengths.len(),
                edges_distinct(self.edges@),
                self.of_surface == start.of_surface,
                self.shared == start.shared,
                self.segments == start.segments,
                done == kept_links(lengths@, *minimum_edge, k as int).len(),
                self.edges@ == chain_edges(start.edges@, chain@, kept_links(lengths@, *minimum_edge, k as int), done),
                added.len() == done,
                forall|m: int|
                    0 <= m < done ==> edge_known(
                        self.edges@,
                        #[trigger] added@[m],
                        chain@[kept_links(lengths@, *minimum_edge, k as int)[m]],
                        chain@[kept_links(lengths@, *minimum_edge, k as int)[m] + 1],
                    ),
                forall|m: int| 0 <= m < done ==> chain@[#[trigger] kept_links(lengths@, *minimum_edge, k as int)[m]] != chain@[kept_links(lengths@, *minimum_edge, k as int)[m] + 1],
            decreases lengths.len() - k,
        {
            if !lengths[k].less(minimum_edge) {
                let ghost before = self.edges@;
                let ghost now = kept_links(lengths@, *minimum_edge, k as int);
                let ghost next = now.push(k as int);
                match intern_edge(&mut self.edges, chain[k], chain[k + 1]) {
                    Ok(edge) => {
                        added.push(edge);
                        proof {
                            interned_keeps(before, edge_key(chain@[k as int], chain@[k + 1]));
                            chain_edges_extend(start.edges@, chain@, now, next, done);
                            done = done + 1;
                            assert(kept_links(lengths@, *minimum_edge, k + 1) == next);
                            assert forall|m: int| 0 <= m < done implies edge_known(self.edges@, #[trigger] added@[m], chain@[next[m]], chain@[next[m] + 1]) by {
                                if m < now.len() {
                                    assert(now[m] == next[m]);
                                }
                            }
                        }
                    },
                    Err(error) => {
                        proof {
                            kept_links_prefix(lengths@, *minimum_edge, k + 1, lengths@.len() as int, now.len() as int);
                            assert(kept_links(lengths@, *minimum_edge, k + 1) == next);
                            assert(links[now.len() as int] == k);
                            assert forall|m: int| 0 <= m < now.len() implies #[trigger] links[m] == now[m] by {
                                kept_links_prefix(lengths@, *minimum_edge, k as int, lengths@.len() as int, m);
                            }
                            chain_edges_extend(start.edges@, chain@, now, links, done);
                            assert forall|m: int| 0 <= m < done implies chain@[#[trigger] links[m]] != chain@[links[m] + 1] by {
                                assert(chain@[now[m]] != chain@[now[m] + 1]);
                            }
                        }
                        return Err(error);
                    },
                }
            }
            k += 1;
        }
        let first = extended(&self.of_surface[segment.surfaces[0]], &added);
        let second = extended(&self.of_surface[segment.surfaces[1]], &added);
        let shared = extended(&self.shared, &added);
        proof {
            assert forall|e: usize| #[trigger] added@.contains(e) <==> link_edge(self.edges@, chain@, links, links.len() as int, e) by {
                if added@.contains(e) {
                    let m = choose|m: int| 0 <= m < added@.len() && added@[m] == e;
                    assert(edge_known(self.edges@, added@[m], chain@[links[m]], chain@[links[m] + 1]));
                }
                if link_edge(self.edges@, chain@, links, links.len() as int, e) {
                    let m = choose|m: int| 0 <= m < links.len() && edge_known(self.edges@, e, chain@[#[trigger] links[m]], chain@[links[m] + 1]);
                    assert(edge_known(self.edges@, added@[m], chain@[links[m]], chain@[links[m] + 1]));
                    if added@[m] < e {
                        assert(self.edges@[added@[m] as int] != self.edges@[e as int]);
                    } else if e < added@[m] {
                        assert(self.edges@[e as int] != self.edges@[added@[m] as int]);
                    }
                    assert(added@[m] == e);
                }
            }
        }
        self.of_surface.set(segment.surfaces[0], first);
        self.of_surface.set(segment.surfaces[1], second);
        self.shared = shared;
        self.segments.push(segment);
        proof {
            assert forall|s: int| 0 <= s < start.of_surface@.len() implies if s == segment.surfaces[0] || s == segment.surfaces[1] {
                with_links(#[trigger] self.of_surface@[s]@, start.of_surface@[s]@, self.edges@, chain@, links)
            } else {
                self.of_surface@[s] == start.of_surface@[s]
            } by {
                if s == segment.surfaces[0] || s == segment.surfaces[1] {
                    assert forall|e: usize| #[trigger] self.of_surface@[s]@.contains(e) <==> start.of_surface@[s]@.contains(e) || link_edge(self.edges@, chain@, links, links.len() as int, e) by {
                        assert(added@.contains(e) <==> link_edge(self.edges@, chain@, links, links.len() as int, e));
                    }
                }
            }
            assert(with_links(self.shared@, start.shared@, self.edges@, chain@, links)) by {
                assert forall|e: usize| #[trigger] self.shared@.contains(e) <==> start.shared@.contains(e) || link_edge(self.edges@, chain@, links, links.len() as int, e) by {
                    assert(added@.contains(e) <==> link_edge(self.edges@, chain@, links, links.len() as int, e));
                }
            }
        }
        Ok(())
    }
}

proof fn chain_edges_extend(edges: Seq<[usize; 2]>, chain: Seq<usize>, a: Seq<int>, b: Seq<int>, upto: int)
    requires
        0 <= upto <= a.len() <= b.len(),
        forall|i: int| 0 <= i < a.len() ==> a[i] == b[i],
    ensures
        chain_edges(edges, chain, a, upto) == chain_edges(edges, chain, b, upto),
    decreases upto,
{
    if upto > 0 {
        chain_edges_extend(edges, chain, a, b, upto - 1);
    }
}

proof fn kept_links_prefix(lengths: Seq<Scalar>, minimum_edge: Scalar, a: int, b: int, k: int)
    requires
        0 <= a <= b,
        0 <= k < kept_links(lengths, minimum_edge, a).len(),
    ensures
        k < kept_links(lengths, minimum_edge, b).len(),
        kept_links(lengths, minimum_edge, b)[k] == kept_links(lengths, minimum_edge, a)[k],
    decreases b - a,
{
    if a < b {
        kept_links_prefix(lengths, minimum_edge, a, b - 1, k);
    }
}

/// Surfaces can be made to conform within a finite positive precision only.
pub fn check_precision(precision: &Scalar) -> (r: Result<(), &'static str>)
    ensures
        match r {
            Ok(_) => crate::scalar::positive(*precision),
            Err(error) => !crate::scalar::positive(*precision) && error@ == "invalid junction precision"@,
        },
{
    if crate::scalar::is_positive(precision) {
        Ok(())
    } else {
        Err("invalid junction precision")
    }
}

/// What was found and made.
pub fn report(
    junctions: Junctions,
    candidate_pairs: usize,
    generated_vertices: usize,
    split_boundary_edges: usize,
) -> (r: Report)
    ensures
        r.candidate_pairs == candidate_pairs,
        r.detected_segments == junctions.segments@.len(),
        r.generated_vertices == generated_vertices,
        r.split_boundary_edges == split_boundary_edges,
        r.shared_constraint_edges == junctions.shared@.len(),
        r.segments == junctions.segments,
{
    Report {
        candidate_pairs,
        detected_segments: junctions.segments.len(),
        generated_vertices,
        split_boundary_edges,
        shared_constraint_edges: junctions.shared.len(),
        segments: junctions.segments,
    }
}

proof fn interned_lists(edges: Seq<[usize; 2]>, key: [usize; 2])
    ensures
        interned(edges, key).contains(key),
        forall|other: [usize; 2]| #[trigger] edges.contains(other) ==> interned(edges, key).contains(other),
{
    let after = interned(edges, key);
    if !edges.contains(key) {
        assert(after[edges.len() as int] == key);
    }
    assert forall|other: [usize; 2]| #[trigger] edges.contains(other) implies after.contains(other) by {
        let e = choose|e: int| 0 <= e < edges.len() && edges[e] == other;
        assert(after[e] == other);
    }
}

proof fn chain_lists(edges: Seq<[usize; 2]>, chain: Seq<usize>, links: Seq<int>, upto: int)
    requires
        0 <= upto <= links.len(),
    ensures
        forall|k: int|
            0 <= k < upto ==> chain_edges(edges, chain, links, upto).contains(
                edge_key(chain[#[trigger] links[k]], chain[links[k] + 1]),
            ),
    decreases upto,
{
    if upto > 0 {
        chain_lists(edges, chain, links, upto - 1);
        let before = chain_edges(edges, chain, links, upto - 1);
        interned_lists(before, edge_key(chain[links[upto - 1]], chain[links[upto - 1] + 1]));
    }
}

proof fn listed_chain_adds_nothing(edges: Seq<[usize; 2]>, chain: Seq<usize>, links: Seq<int>, upto: int)
    requires
        0 <= upto <= links.len(),
        forall|k: int|
            0 <= k < upto ==> edges.contains(edge_key(chain[#[trigger] links[k]], chain[links[k] + 1])),
    ensures
        chain_edges(edges, chain, links, upto) == edges,
    decreases upto,
{
    if upto > 0 {
        listed_chain_adds_nothing(edges, chain, links, upto - 1);
        assert(edges.contains(edge_key(chain[links[upto - 1]], chain[links[upto - 1] + 1])));
    }
}

/// Registering a chain again changes no edge: what is there is used again.
pub proof fn registered_chain_is_reused(edges: Seq<[usize; 2]>, chain: Seq<usize>, links: Seq<int>)
    ensures
        ({
            let once = chain_edges(edges, chain, links, links.len() as int);
            chain_edges(once, chain, links, links.len() as int) == once
        }),
{
    let once = chain_edges(edges, chain, links, links.len() as int);
    chain_lists(edges, chain, links, links.len() as int);
    listed_chain_adds_nothing(once, chain, links, links.len() as int);
}

/// The edges of a registered chain are one and the same for both its surfaces.
pub proof fn junction_edges_are_common(
    first: [Seq<usize>; 2],
    second: [Seq<usize>; 2],
    edges: Seq<[usize; 2]>,
    chain: Seq<usize>,
    links: Seq<int>,
    k: int,
)
    requires
        with_links(first[1], first[0], edges, chain, links),
        with_links(second[1], second[0], edges, chain, links),
        0 <= k < links.len(),
        edges.contains(edge_key(chain[links[k]], chain[links[k] + 1])),
        edges.len() <= usize::MAX,
    ensures
        exists|e: usize|
            edge_known(edges, e, chain[links[k]], chain[links[k] + 1]) && first[1].contains(e)
                && #[trigger] second[1].contains(e),
{
    let key = edge_key(chain[links[k]], chain[links[k] + 1]);
    let place = choose|e: int| 0 <= e < edges.len() && edges[e] == key;
    let e = place as usize;
    assert(edge_known(edges, e, chain[links[k]], chain[links[k] + 1]));
    assert(link_edge(edges, chain, links, links.len() as int, e));
    assert(first[1].contains(e) && second[1].contains(e));
}

/// The vertices of a model and those of them that split its edges.
#[derive(Debug)]
pub struct SplitVertices {
    pub count: usize,
    pub split: Vec<usize>,
}

/// A point takes the nearest vertex within the tolerance, or becomes one. `distances`
/// are those to the vertices so far.
pub open spec fn point_taken(
    before: SplitVertices,
    after: SplitVertices,
    distances: Seq<Scalar>,
    tolerance: Scalar,
    vertex: usize,
) -> bool {
    &&& if exists|j: int| 0 <= j < distances.len() && within(#[trigger] distances[j], tolerance) {
        nearest_is(distances, tolerance, vertex as int) && after.count == before.count
    } else {
        vertex == before.count && after.count == before.count + 1
    }
    &&& after.split@ == if before.split@.contains(vertex) {
        before.split@
    } else {
        before.split@.push(vertex)
    }
}

impl SplitVertices {
    /// Takes a point at which edges are split.
    pub fn take_point(&mut self, distances: &Vec<Scalar>, tolerance: &Scalar) -> (vertex: usize)
        requires
            distances@.len() == old(self).count,
            old(self).count < usize::MAX,
        ensures
            point_taken(*old(self), *final(self), distances@, *tolerance, vertex),
    {
        let vertex: usize = match nearest(distances, tolerance) {
            Some(i) => i,
            None => {
                let fresh: usize = self.count;
                self.count = fresh + 1;
                fresh
            },
        };
        if !lists_index(&self.split, vertex) {
            self.split.push(vertex);
        }
        vertex
    }
}

/// The split vertices that a segment joins: those nearest to its ends. The distances are
/// those of the two ends to the split vertices.
pub fn segment_ends(split: &Vec<usize>, start: &Vec<Scalar>, end: &Vec<Scalar>, tolerance: &Scalar) -> (r: Result<
    [usize; 2],
    &'static str,
>)
    requires
        start@.len() == split@.len(),
        end@.len() == split@.len(),
    ensures
        match r {
            Ok(ends) => exists|k: int, l: int| #[trigger]
                nearest_is(start@, *tolerance, k) && #[trigger] nearest_is(end@, *tolerance, l) && ends == [
                    split@[k],
                    split@[l],
                ],
            Err(error) => if exists|k: int| 0 <= k < start@.len() && within(#[trigger] start@[k], *tolerance) {
                error@ == "missing junction end vertex"@ && forall|l: int|
                    0 <= l < end@.len() ==> !within(#[trigger] end@[l], *tolerance)
            } else {
                error@ == "missing junction start vertex"@
            },
        },
{
    match nearest(start, tolerance) {
        None => Err("missing junction start vertex"),
        Some(k) => match nearest(end, tolerance) {
            None => {
                assert(within(start@[k as int], *tolerance));
                Err("missing junction end vertex")
            },
            Some(l) => {
                let ends = [split[k], split[l]];
                assert(ends =~= [split@[k as int], split@[l as int]]);
                Ok(ends)
            },
        },
    }
}

/// Whether a segment is long enough to be registered.
pub fn is_registered(length: &Scalar, minimum_edge: &Scalar) -> (r: bool)
    ensures
        r == !length.le(*minimum_edge),
{
    !length.at_most(minimum_edge)
}

/// The points of a run, taken one after the other. `distance` is that of a point to a
/// vertex.
pub open spec fn points_taken(
    states: Seq<SplitVertices>,
    chosen: Seq<usize>,
    distance: spec_fn(int, int) -> Scalar,
    tolerance: Scalar,
) -> bool {
    &&& states.len() == chosen.len() + 1
    &&& forall|p: int|
        0 <= p < chosen.len() ==> point_taken(
            states[p],
            states[p + 1],
            Seq::new(states[p].count as nat, |v: int| distance(p, v)),
            tolerance,
            #[trigger] chosen[p],
        )
}

proof fn counts_grow(states: Seq<SplitVertices>, chosen: Seq<usize>, distance: spec_fn(int, int) -> Scalar, tolerance: Scalar, p: int, q: int)
    requires
        points_taken(states, chosen, distance, tolerance),
        0 <= p <= q <= chosen.len(),
    ensures
        states[p].count <= states[q].count,
    decreases q - p,
{
    if p < q {
        counts_grow(states, chosen, distance, tolerance, p, q - 1);
        assert(point_taken(states[q - 1], states[q - 1 + 1], Seq::new(states[q - 1].count as nat, |v: int| distance(q - 1, v)), tolerance, chosen[q - 1]));
    }
}

proof fn same_choices(
    one: Seq<SplitVertices>,
    first: Seq<usize>,
    two: Seq<SplitVertices>,
    second: Seq<usize>,
    distance: spec_fn(int, int) -> Scalar,
    tolerance: Scalar,
    p: int,
)
    requires
        points_taken(one, first, distance, tolerance),
        points_taken(two, second, distance, tolerance),
        first.len() == second.len(),
        two[0].count == one.last().count,
        two[0].split@ == one[0].split@,
        forall|q: int, v: int, w: int|
            0 <= q < first.len() && 0 <= v < one.last().count && 0 <= w < one.last().count && within(
                #[trigger] distance(q, v),
                tolerance,
            ) && within(#[trigger] distance(q, w), tolerance) ==> v == w,
        forall|q: int| 0 <= q < first.len() ==> within(distance(q, #[trigger] first[q] as int), tolerance),
        0 <= p <= first.len(),
    ensures
        two[p].count == one.last().count,
        two[p].split@ == one[p].split@,
        forall|q: int| 0 <= q < p ==> #[trigger] second[q] == first[q],
    decreases p,
{
    if p > 0 {
        same_choices(one, first, two, second, distance, tolerance, p - 1);
        let q = p - 1;
        let n = first.len() as int;
        let known = Seq::new(two[q].count as nat, |v: int| distance(q, v));
        let early = Seq::new(one[q].count as nat, |v: int| distance(q, v));
        assert(point_taken(two[q], two[q + 1], known, tolerance, second[q]));
        assert(point_taken(one[q], one[q + 1], early, tolerance, first[q]));
        counts_grow(one, first, distance, tolerance, q + 1, n);
        assert(first[q] < one.last().count);
        assert(within(distance(q, first[q] as int), tolerance));
        assert(known[first[q] as int] == distance(q, first[q] as int));
        assert(within(known[first[q] as int], tolerance));
        assert(nearest_is(known, tolerance, second[q] as int));
        assert(known[second[q] as int] == distance(q, second[q] as int));
        assert(within(distance(q, second[q] as int), tolerance));
    }
}

proof fn no_vertex_made(
    one: Seq<SplitVertices>,
    first: Seq<usize>,
    two: Seq<SplitVertices>,
    second: Seq<usize>,
    distance: spec_fn(int, int) -> Scalar,
    tolerance: Scalar,
    p: int,
)
    requires
        points_taken(one, first, distance, tolerance),
        points_taken(two, second, distance, tolerance),
        first.len() == second.len(),
        two[0].count == one.last().count,
        forall|q: int| 0 <= q < first.len() ==> within(distance(q, #[trigger] first[q] as int), tolerance),
        0 <= p <= first.len(),
    ensures
        two[p].count == one.last().count,
    decreases p,
{
    if p > 0 {
        no_vertex_made(one, first, two, second, distance, tolerance, p - 1);
        let q = p - 1;
        let known = Seq::new(two[q].count as nat, |v: int| distance(q, v));
        let early = Seq::new(one[q].count as nat, |v: int| distance(q, v));
        assert(point_taken(two[q], two[q + 1], known, tolerance, second[q]));
        assert(point_taken(one[q], one[q + 1], early, tolerance, first[q]));
        counts_grow(one, first, distance, tolerance, q + 1, first.len() as int);
        assert(known[first[q] as int] == distance(q, first[q] as int));
    }
}

/// Taking the same points again makes no new vertex, where every point is within the
/// tolerance of the vertex it took.
pub proof fn second_run_makes_no_vertex(
    one: Seq<SplitVertices>,
    first: Seq<usize>,
    two: Seq<SplitVertices>,
    second: Seq<usize>,
    distance: spec_fn(int, int) -> Scalar,
    tolerance: Scalar,
)
    requires
        points_taken(one, first, distance, tolerance),
        points_taken(two, second, distance, tolerance),
        first.len() == second.len(),
        two[0].count == one.last().count,
        forall|q: int| 0 <= q < first.len() ==> within(distance(q, #[trigger] first[q] as int), tolerance),
    ensures
        two.last().count == one.last().count,
{
    no_vertex_made(one, first, two, second, distance, tolerance, first.len() as int);
}

/// Taking the same points again splits at the same vertices, where every point is within
/// the tolerance of the vertex it took and of no other.
pub proof fn second_run_splits_alike(
    one: Seq<SplitVertices>,
    first: Seq<usize>,
    two: Seq<SplitVertices>,
    second: Seq<usize>,
    distance: spec_fn(int, int) -> Scalar,
    tolerance: Scalar,
)
    requires
        points_taken(one, first, distance, tolerance),
        points_taken(two, second, distance, tolerance),
        first.len() == second.len(),
        two[0].count == one.last().count,
        two[0].split@ == one[0].split@,
        forall|q: int, v: int, w: int|
            0 <= q < first.len() && 0 <= v < one.last().count && 0 <= w < one.last().count && within(
                #[trigger] distance(q, v),
                tolerance,
            ) && within(#[trigger] distance(q, w), tolerance) ==> v == w,
        forall|q: int| 0 <= q < first.len() ==> within(distance(q, #[trigger] first[q] as int), tolerance),
    ensures
        two.last().count == one.last().count,
        two.last().split@ == one.last().split@,
        second == first,
{
    same_choices(one, first, two, second, distance, tolerance, first.len() as int);
    assert(second =~= first);
}

/// The order of vertices along an edge.
pub open spec fn edge_place(places: spec_fn(int, usize) -> Scalar, i: int, vertex: usize) -> int {
    places(i, vertex).total_rank() * 0x1_0000_0000_0000_0000 + vertex
}

proof fn repeats_sorted(order: Seq<usize>, items: Seq<Placed>, keys: Seq<i128>, place: spec_fn(usize) -> int, upto: int)
    requires
        placed_keys(keys, items),
        stable_order(keys, order),
        forall|k: int| 0 <= k < items.len() ==> #[trigger] keys[k] == place(items[k].vertex),
        0 <= upto <= order.len(),
    ensures
        ({
            let chain = without_repeats(order, items, upto);
            &&& forall|p: int, q: int| 0 <= p < q < chain.len() ==> place(#[trigger] chain[p]) < place(#[trigger] chain[q])
            &&& forall|k: int| 0 <= k < upto ==> chain.contains(items[#[trigger] order[k] as int].vertex)
            &&& upto > 0 ==> chain.len() > 0 && chain.last() == items[order[upto - 1] as int].vertex
        }),
    decreases upto,
{
    if upto > 0 {
        repeats_sorted(order, items, keys, place, upto - 1);
        let rest = without_repeats(order, items, upto - 1);
        let chain = without_repeats(order, items, upto);
        let vertex = items[order[upto - 1] as int].vertex;
        if upto > 1 {
            assert(key_before(keys, order[upto - 2], order[upto - 1]));
            assert(keys[order[upto - 2] as int] == place(items[order[upto - 2] as int].vertex));
            assert(keys[order[upto - 1] as int] == place(vertex));
            assert(place(rest.last()) <= place(vertex));
            if rest.last() != vertex {
                assert(keys[order[upto - 2] as int] < keys[order[upto - 1] as int]) by {
                    let (x, y) = (order[upto - 2] as int, order[upto - 1] as int);
                    if keys[x] == keys[y] {
                        same_key_same_vertex(items, keys, x, y);
                    }
                }
            }
        }
        assert forall|p: int, q: int| 0 <= p < q < chain.len() implies place(#[trigger] chain[p]) < place(#[trigger] chain[q]) by {
            if q < rest.len() {
                assert(chain[p] == rest[p] && chain[q] == rest[q]);
            } else {
                assert(chain[p] == rest[p]);
                if p < rest.len() - 1 {
                    assert(place(rest[p]) < place(rest[rest.len() - 1]));
                }
            }
        }
        assert forall|k: int| 0 <= k < upto implies chain.contains(items[#[trigger] order[k] as int].vertex) by {
            if k < upto - 1 {
                let x = items[order[k] as int].vertex;
                assert(rest.contains(x));
                let p = choose|p: int| 0 <= p < rest.len() && rest[p] == x;
                assert(chain[p] == x);
            } else {
                assert(chain[chain.len() - 1] == vertex);
            }
        }
    }
}

proof fn same_key_same_vertex(items: Seq<Placed>, keys: Seq<i128>, x: int, y: int)
    requires
        placed_keys(keys, items),
        0 <= x < items.len(),
        0 <= y < items.len(),
        keys[x] == keys[y],
    ensures
        items[x].vertex == items[y].vertex,
{
    let (a, b) = (items[x].t.total_rank(), items[y].t.total_rank());
    let (v, w) = (items[x].vertex as int, items[y].vertex as int);
    assert(keys[x] == a * 0x1_0000_0000_0000_0000 + v);
    assert(keys[y] == b * 0x1_0000_0000_0000_0000 + w);
    assert(0 <= v < 0x1_0000_0000_0000_0000 && 0 <= w < 0x1_0000_0000_0000_0000);
    assert(a == b && v == w) by (nonlinear_arith)
        requires
            a * 0x1_0000_0000_0000_0000 + v == b * 0x1_0000_0000_0000_0000 + w,
            0 <= v < 0x1_0000_0000_0000_0000,
            0 <= w < 0x1_0000_0000_0000_0000,
    ;
}

pub(crate) proof fn splitting_from(
    candidates: Seq<SplitCandidate>,
    a: usize,
    b: usize,
    minimum_edge: Scalar,
    upto: int,
    k: int,
) -> (m: int)
    requires
        0 <= upto <= candidates.len(),
        0 <= k < splitting(candidates, a, b, minimum_edge, upto).len(),
    ensures
        0 <= m < upto,
        splits_edge(candidates[m], a, b, minimum_edge),
        splitting(candidates, a, b, minimum_edge, upto)[k].vertex == candidates[m].vertex,
        splitting(candidates, a, b, minimum_edge, upto)[k].t == candidates[m].t,
    decreases upto,
{
    let rest = splitting(candidates, a, b, minimum_edge, upto - 1);
    if k < rest.len() {
        splitting_from(candidates, a, b, minimum_edge, upto - 1, k)
    } else {
        upto - 1
    }
}

proof fn splitting_length(candidates: Seq<SplitCandidate>, a: usize, b: usize, minimum_edge: Scalar, upto: int)
    requires
        0 <= upto,
    ensures
        splitting(candidates, a, b, minimum_edge, upto).len() <= upto,
    decreases upto,
{
    if upto > 0 {
        splitting_length(candidates, a, b, minimum_edge, upto - 1);
    }
}

proof fn splitting_has(
    candidates: Seq<SplitCandidate>,
    a: usize,
    b: usize,
    minimum_edge: Scalar,
    upto: int,
    m: int,
) -> (k: int)
    requires
        0 <= m < upto <= candidates.len(),
        splits_edge(candidates[m], a, b, minimum_edge),
    ensures
        0 <= k < splitting(candidates, a, b, minimum_edge, upto).len(),
        k <= m,
        splitting(candidates, a, b, minimum_edge, upto)[k].vertex == candidates[m].vertex,
    decreases upto,
{
    let rest = splitting(candidates, a, b, minimum_edge, upto - 1);
    splitting_length(candidates, a, b, minimum_edge, upto - 1);
    if m < upto - 1 {
        splitting_has(candidates, a, b, minimum_edge, upto - 1, m)
    } else {
        rest.len() as int
    }
}

/// Where the part of an edge of a ring begins in the expanded ring.
pub open spec fn part_start(chains: Seq<Seq<usize>>, upto: int) -> int
    decreases upto,
{
    if upto <= 0 {
        0
    } else {
        part_start(chains, upto - 1) + 1 + chains[upto - 1].len()
    }
}

pub(crate) proof fn expanded_at(ring: Seq<usize>, chains: Seq<Seq<usize>>, upto: int, i: int, p: int)
    requires
        0 <= i < upto <= ring.len(),
        chains.len() == ring.len(),
        0 <= p <= chains[i].len(),
    ensures
        expanded(ring, chains, upto).len() == part_start(chains, upto),
        0 <= part_start(chains, i),
        part_start(chains, i) + p < part_start(chains, upto),
        expanded(ring, chains, upto)[part_start(chains, i) + p] == (if p == 0 {
            ring[i]
        } else {
            chains[i][p - 1]
        }),
    decreases upto,
{
    let rest = expanded(ring, chains, upto - 1);
    assert(expanded(ring, chains, upto) == rest.push(ring[upto - 1]) + chains[upto - 1]);
    expanded_length(ring, chains, upto - 1);
    if i < upto - 1 {
        expanded_at(ring, chains, upto - 1, i, p);
    }
}

pub(crate) proof fn expanded_length(ring: Seq<usize>, chains: Seq<Seq<usize>>, upto: int)
    requires
        0 <= upto <= ring.len(),
        chains.len() == ring.len(),
    ensures
        expanded(ring, chains, upto).len() == part_start(chains, upto),
    decreases upto,
{
    if upto > 0 {
        expanded_length(ring, chains, upto - 1);
    }
}

pub(crate) proof fn find_part(chains: Seq<Seq<usize>>, upto: int, j: int) -> (r: (int, int))
    requires
        0 <= upto <= chains.len(),
        0 <= j < part_start(chains, upto),
    ensures
        0 <= r.0 < upto,
        0 <= r.1 <= chains[r.0].len(),
        j == part_start(chains, r.0) + r.1,
    decreases upto,
{
    if j < part_start(chains, upto - 1) {
        find_part(chains, upto - 1, j)
    } else {
        (upto - 1, j - part_start(chains, upto - 1))
    }
}

/// If the vertex splits the piece of edge `i` that comes after `p` of its split
/// vertices, it lies on the edge, between the ends of the piece.
pub open spec fn piece_inherits(
    ring: Seq<usize>,
    chains: Seq<Seq<usize>>,
    candidates: Seq<Vec<SplitCandidate>>,
    places: spec_fn(int, usize) -> Scalar,
    candidate: SplitCandidate,
    i: int,
    p: int,
    minimum_edge: Scalar,
) -> bool {
    let split = expanded(ring, chains, ring.len() as int);
    let at = part_start(chains, i) + p;
    splits_edge(candidate, split[at], next_of(split, at), minimum_edge) ==> {
        &&& exists|k: int|
            0 <= k < candidates[i]@.len() && splits_edge(
                #[trigger] candidates[i]@[k],
                ring[i],
                next_of(ring, i),
                minimum_edge,
            ) && candidates[i]@[k].vertex == candidate.vertex
        &&& p > 0 ==> edge_place(places, i, chains[i][p - 1]) <= edge_place(places, i, candidate.vertex)
        &&& p < chains[i].len() ==> edge_place(places, i, candidate.vertex) <= edge_place(places, i, chains[i][p])
    }
}

/// A vertex on a piece of a split edge lies on that edge, between the ends of the
/// piece.
pub open spec fn pieces_inherit(
    ring: Seq<usize>,
    chains: Seq<Seq<usize>>,
    candidates: Seq<Vec<SplitCandidate>>,
    places: spec_fn(int, usize) -> Scalar,
    again: Seq<Vec<SplitCandidate>>,
    minimum_edge: Scalar,
) -> bool {
    forall|i: int, p: int, m: int|
        0 <= i < ring.len() && 0 <= p <= chains[i].len() && 0 <= m < again[part_start(chains, i) + p]@.len()
            ==> #[trigger] piece_inherits(
            ring,
            chains,
            candidates,
            places,
            again[part_start(chains, i) + p]@[m],
            i,
            p,
            minimum_edge,
        )
}

/// A ring that was split is not split again: no vertex is left between two that follow
/// one another.
#[verifier::rlimit(60)]
pub proof fn split_ring_stays(
    ring: Seq<usize>,
    chains: Seq<Seq<usize>>,
    candidates: Seq<Vec<SplitCandidate>>,
    places: spec_fn(int, usize) -> Scalar,
    again: Seq<Vec<SplitCandidate>>,
    further: Seq<Seq<usize>>,
    minimum_edge: Scalar,
)
    requires
        candidates.len() == ring.len(),
        edge_chains(chains, ring, candidates, minimum_edge),
        forall|i: int, k: int|
            0 <= i < ring.len() && 0 <= k < candidates[i]@.len() ==> (#[trigger] candidates[i]@[k]).t == places(
                i,
                candidates[i]@[k].vertex,
            ),
        again.len() == expanded(ring, chains, ring.len() as int).len(),
        edge_chains(further, expanded(ring, chains, ring.len() as int), again, minimum_edge),
        pieces_inherit(ring, chains, candidates, places, again, minimum_edge),
    ensures
        expanded(
            expanded(ring, chains, ring.len() as int),
            further,
            expanded(ring, chains, ring.len() as int).len() as int,
        ) == expanded(ring, chains, ring.len() as int),
{
    let n = ring.len() as int;
    let split = expanded(ring, chains, n);
    expanded_length(ring, chains, n);
    assert forall|j: int| 0 <= j < split.len() implies (#[trigger] further[j]).len() == 0 by {
        let (i, s) = find_part(chains, n, j);
        assert(part_start(chains, i) + s == j);
        let here = split[j];
        let next = next_of(split, j);
        let items = splitting(again[j]@, here, next, minimum_edge, again[j]@.len() as int);
        expanded_at(ring, chains, n, i, s);
        if s < chains[i].len() {
            expanded_at(ring, chains, n, i, s + 1);
            assert(next == chains[i][s]);
        }
        if items.len() > 0 {
            let m = splitting_from(again[j]@, here, next, minimum_edge, again[j]@.len() as int, 0);
            let vertex = again[j]@[m].vertex;
            assert(piece_inherits(ring, chains, candidates, places, again[part_start(chains, i) + s]@[m], i, s, minimum_edge));
            let own = candidates[i]@;
            let parent = splitting(own, ring[i], next_of(ring, i), minimum_edge, own.len() as int);
            let k = choose|k: int| 0 <= k < own.len() && splits_edge(#[trigger] own[k], ring[i], next_of(ring, i), minimum_edge) && own[k].vertex == vertex;
            let at = splitting_has(own, ring[i], next_of(ring, i), minimum_edge, own.len() as int, k);
            assert(chain_of(chains[i], parent));
            let order = choose|order: Seq<usize>| #[trigger] along(order, parent) && chains[i] == without_repeats(order, parent, parent.len() as int);
            let keys = choose|keys: Seq<i128>| #[trigger] placed_keys(keys, parent) && stable_order(keys, order);
            let place = |v: usize| edge_place(places, i, v);
            assert forall|x: int| 0 <= x < parent.len() implies #[trigger] keys[x] == place(parent[x].vertex) by {
                let c = splitting_from(own, ring[i], next_of(ring, i), minimum_edge, own.len() as int, x);
                assert(candidates[i]@[c].t == places(i, candidates[i]@[c].vertex));
            }
            repeats_sorted(order, parent, keys, place, order.len() as int);
            assert(at < candidates[i].len());
            assert(order.contains(at as usize));
            let o = choose|o: int| 0 <= o < order.len() && order[o] == at as usize;
            assert(chains[i].contains(parent[order[o] as int].vertex));
            let q = choose|q: int| 0 <= q < chains[i].len() && chains[i][q] == vertex;
            if s > 0 {
                assert(place(chains[i][s - 1]) <= place(chains[i][q]));
                if q < s - 1 {
                    assert(place(chains[i][q]) < place(chains[i][s - 1]));
                }
                assert(q != s - 1);
            }
            if s < chains[i].len() {
                assert(place(chains[i][q]) <= place(chains[i][s]));
                if s < q {
                    assert(place(chains[i][s]) < place(chains[i][q]));
                }
                assert(q != s);
            }
            assert(false);
        }
        assert(chain_of(further[j], items));
        let order = choose|order: Seq<usize>| #[trigger] along(order, items) && further[j] == without_repeats(order, items, items.len() as int);
    }
    unsplit_ring_stays(split, further, split.len() as int);
    assert(split.take(split.len() as int) =~= split);
}

/// What registering a segment does.
pub open spec fn segment_added(
    before: Junctions,
    after: Junctions,
    segment: Segment,
    chain: Seq<usize>,
    lengths: Seq<Scalar>,
    minimum_edge: Scalar,
) -> bool {
    let links = kept_links(lengths, minimum_edge, lengths.len() as int);
    &&& after.edges@ == chain_edges(before.edges@, chain, links, links.len() as int)
    &&& after.of_surface@.len() == before.of_surface@.len()
    &&& forall|s: int|
        0 <= s < before.of_surface@.len() ==> if s == segment.surfaces[0] || s == segment.surfaces[1] {
            with_links(#[trigger] after.of_surface@[s]@, before.of_surface@[s]@, after.edges@, chain, links)
        } else {
            after.of_surface@[s] == before.of_surface@[s]
        }
    &&& with_links(after.shared@, before.shared@, after.edges@, chain, links)
    &&& after.segments@ == before.segments@.push(segment)
    &&& links_apart(chain, links, links.len() as int)
}

pub open spec fn junctions_agree(a: Junctions, b: Junctions) -> bool {
    &&& a.edges@ == b.edges@
    &&& a.of_surface@.len() == b.of_surface@.len()
    &&& forall|s: int| 0 <= s < a.of_surface@.len() ==> (#[trigger] a.of_surface@[s])@ == b.of_surface@[s]@
    &&& a.shared@ == b.shared@
    &&& a.segments@ == b.segments@
}

/// Registering the same segment in the same state comes to the same.
pub proof fn registration_is_determined(
    before: Junctions,
    after: Junctions,
    other_before: Junctions,
    other_after: Junctions,
    segment: Segment,
    chain: Seq<usize>,
    lengths: Seq<Scalar>,
    minimum_edge: Scalar,
)
    requires
        junctions_agree(before, other_before),
        segment_added(before, after, segment, chain, lengths, minimum_edge),
        segment_added(other_before, other_after, segment, chain, lengths, minimum_edge),
    ensures
        junctions_agree(after, other_after),
{
    assert forall|s: int| 0 <= s < after.of_surface@.len() implies (#[trigger] after.of_surface@[s])@ == other_after.of_surface@[s]@ by {
        assert(before.of_surface@[s]@ == other_before.of_surface@[s]@);
        if s == segment.surfaces[0] || s == segment.surfaces[1] {
            ascending_indices_determined(after.of_surface@[s]@, other_after.of_surface@[s]@);
        }
    }
    ascending_indices_determined(after.shared@, other_after.shared@);
}

/// Two surfaces meet at their boundaries where the segment lies on both, in a T where it lies
/// on one, and cross where it lies on none; which of them is named first does not matter.
pub proof fn kinds_count_the_boundaries(first: bool, second: bool)
    ensures
        junction_kind(first, second) == Kind::BoundaryJunction <==> first && second,
        junction_kind(first, second) == Kind::TJunction <==> first != second,
        junction_kind(first, second) == Kind::Crossing <==> !first && !second,
        junction_kind(first, second) == junction_kind(second, first),
{
}

/// A use runs between the two vertices of its edge, and the same edge used in the other sense
/// runs back.
pub proof fn uses_run_between_the_ends(edges: Seq<[usize; 2]>, edge: usize)
    ensures
        ({
            let there = EdgeUse { edge, reversed: false };
            let back = EdgeUse { edge, reversed: true };
            &&& use_start(edges, there) == edges[edge as int][0]
            &&& use_end(edges, there) == edges[edge as int][1]
            &&& use_start(edges, back) == use_end(edges, there)
            &&& use_end(edges, back) == use_start(edges, there)
        }),
{
}

/// The vertices of a ring that was taken are joined by its edges, each to the next and the last
/// to the first.
pub proof fn ring_vertices_are_joined(vertices: Seq<usize>, ring: Seq<EdgeUse>, edges: Seq<[usize; 2]>, i: int)
    requires
        ring_fault(ring, edges) is None,
        ring_starts(vertices, ring, edges),
        0 <= i < ring.len(),
    ensures
        ({
            let edge = edges[ring[i].edge as int];
            let next = vertices[if i + 1 < ring.len() { i + 1 } else { 0 }];
            (edge[0] == vertices[i] && edge[1] == next) || (edge[1] == vertices[i] && edge[0] == next)
        }),
{
    taken_ring_closes(ring, edges, i);
    assert(vertices[i] == use_start(edges, ring[i]));
    assert(vertices[if i + 1 < ring.len() { i + 1 } else { 0 }] == use_start(edges, ring[if i + 1 < ring.len() { i + 1 } else { 0 }]));
}

/// A boundary with fewer than three edges is no ring.
pub proof fn short_boundaries_are_refused(ring: Seq<EdgeUse>, edges: Seq<[usize; 2]>)
    ensures
        ring.len() < 3 ==> ring_fault(ring, edges) == Some("invalid surface boundary"@),
        ring_fault(ring, edges) is None ==> ring.len() >= 3,
{
}

proof fn repeats_keep(order: Seq<usize>, items: Seq<Placed>, upto: int, vertex: usize)
    requires
        0 <= upto <= order.len(),
    ensures
        without_repeats(order, items, upto).contains(vertex) <==> exists|k: int|
            0 <= k < upto && items[#[trigger] order[k] as int].vertex == vertex,
        upto > 0 ==> without_repeats(order, items, upto).len() > 0 && without_repeats(order, items, upto).last() == items[order[upto
            - 1] as int].vertex,
    decreases upto,
{
    if upto > 0 {
        repeats_keep(order, items, upto - 1, vertex);
        let rest = without_repeats(order, items, upto - 1);
        let here = items[order[upto - 1] as int].vertex;
        crate::ordering::pushed_contains(rest, here, vertex);
        if rest.len() > 0 && rest.last() == here && here == vertex {
            assert(rest[rest.len() - 1] == vertex);
        }
    }
}

/// A chain passes exactly the vertices that lie on its segment.
pub proof fn chains_pass_what_lies_on_them(chain: Seq<usize>, items: Seq<Placed>, vertex: usize)
    requires
        chain_of(chain, items),
        items.len() <= usize::MAX,
    ensures
        chain.contains(vertex) <==> exists|k: int| 0 <= k < items.len() && (#[trigger] items[k]).vertex == vertex,
{
    let order = choose|order: Seq<usize>| #[trigger]
        along(order, items) && chain == without_repeats(order, items, items.len() as int);
    let keys = choose|keys: Seq<i128>| #[trigger] placed_keys(keys, items) && stable_order(keys, order);
    repeats_keep(order, items, items.len() as int, vertex);
    if exists|k: int| 0 <= k < items.len() && (#[trigger] items[k]).vertex == vertex {
        let k = choose|k: int| 0 <= k < items.len() && (#[trigger] items[k]).vertex == vertex;
        assert(order.contains(k as usize));
        let i = choose|i: int| 0 <= i < order.len() && order[i] == k as usize;
        assert(items[order[i] as int].vertex == vertex);
    }
    if chain.contains(vertex) {
        let k = choose|k: int| 0 <= k < items.len() && items[#[trigger] order[k] as int].vertex == vertex;
        assert(items[order[k] as int].vertex == vertex);
    }
}

/// A candidate splits an edge exactly when it is none of its ends and at least the least edge
/// away from both.
pub proof fn split_vertices_keep_their_distance(
    candidates: Seq<SplitCandidate>,
    a: usize,
    b: usize,
    minimum_edge: Scalar,
    upto: int,
    placed: Placed,
)
    requires
        0 <= upto <= candidates.len(),
    ensures
        splitting(candidates, a, b, minimum_edge, upto).contains(placed) <==> exists|k: int|
            0 <= k < upto && (#[trigger] candidates[k]).vertex == placed.vertex && candidates[k].t == placed.t && placed.vertex != a
                && placed.vertex != b && minimum_edge.le(candidates[k].from_start) && minimum_edge.le(candidates[k].from_end),
    decreases upto,
{
    if upto > 0 {
        split_vertices_keep_their_distance(candidates, a, b, minimum_edge, upto - 1, placed);
        let last = candidates[upto - 1];
        crate::ordering::pushed_contains(
            splitting(candidates, a, b, minimum_edge, upto - 1),
            (Placed { vertex: last.vertex, t: last.t }),
            placed,
        );
    }
}

/// A link is kept exactly when it is not too short.
pub proof fn long_links_are_kept(lengths: Seq<Scalar>, minimum_edge: Scalar, upto: int, k: int)
    requires
        0 <= upto <= lengths.len(),
    ensures
        kept_links(lengths, minimum_edge, upto).contains(k) <==> 0 <= k < upto && !lengths[k].lt(minimum_edge),
    decreases upto,
{
    if upto > 0 {
        long_links_are_kept(lengths, minimum_edge, upto - 1, k);
        crate::ordering::pushed_contains(kept_links(lengths, minimum_edge, upto - 1), upto - 1, k);
    }
}

/// Registering a segment leaves other surfaces alone, and its edges stand with both of its own.
pub proof fn segments_are_registered_with_both(
    before: Junctions,
    after: Junctions,
    segment: Segment,
    chain: Seq<usize>,
    lengths: Seq<Scalar>,
    minimum_edge: Scalar,
    s: int,
    k: int,
    e: usize,
)
    requires
        segment_added(before, after, segment, chain, lengths, minimum_edge),
        0 <= s < before.of_surface@.len(),
        0 <= k < lengths.len() < chain.len(),
        !lengths[k].lt(minimum_edge),
        edge_known(after.edges@, e, chain[k], chain[k + 1]),
    ensures
        s == segment.surfaces[0] || s == segment.surfaces[1] ==> after.of_surface@[s]@.contains(e),
        s != segment.surfaces[0] && s != segment.surfaces[1] ==> after.of_surface@[s] == before.of_surface@[s],
        after.shared@.contains(e),
        after.segments@.last() == segment,
{
    let links = kept_links(lengths, minimum_edge, lengths.len() as int);
    long_links_are_kept(lengths, minimum_edge, lengths.len() as int, k);
    assert(links.contains(k));
    let m = choose|m: int| 0 <= m < links.len() && links[m] == k;
    assert(edge_known(after.edges@, e, chain[links[m]], chain[links[m] + 1]));
    assert(link_edge(after.edges@, chain, links, links.len() as int, e));
    assert(after.shared@.contains(e));
    if s == segment.surfaces[0] || s == segment.surfaces[1] {
        assert(with_links(after.of_surface@[s]@, before.of_surface@[s]@, after.edges@, chain, links));
        assert(after.of_surface@[s]@.contains(e));
    } else {
        assert(after.of_surface@[s]@ == before.of_surface@[s]@);
    }
}

/// A point that a vertex is near enough to takes a vertex that is there; any other becomes the
/// next one. It is a split vertex afterwards, and those there were stay so.
pub proof fn points_take_the_nearest_vertex(
    before: SplitVertices,
    after: SplitVertices,
    distances: Seq<Scalar>,
    tolerance: Scalar,
    vertex: usize,
    other: usize,
)
    requires
        point_taken(before, after, distances, tolerance, vertex),
    ensures
        (forall|j: int| 0 <= j < distances.len() ==> !(#[trigger] distances[j]).le(tolerance)) ==> vertex == before.count && after.count
            == before.count + 1,
        forall|j: int|
            0 <= j < distances.len() && (#[trigger] distances[j]).le(tolerance) ==> vertex < distances.len() && after.count
                == before.count && distances[vertex as int].le(tolerance) && distances[vertex as int].total_rank()
                <= distances[j].total_rank(),
        after.split@.contains(other) <==> before.split@.contains(other) || other == vertex,
{
    crate::ordering::pushed_contains(before.split@, vertex, other);
    assert forall|j: int| 0 <= j < distances.len() && (#[trigger] distances[j]).le(tolerance) implies vertex < distances.len()
        && after.count == before.count && distances[vertex as int].le(tolerance) && distances[vertex as int].total_rank()
        <= distances[j].total_rank() by {
        assert(within(distances[j], tolerance));
    }
}

} // verus!
