//! A whole run that makes surfaces conform, and what a second one leaves as it is.
use vstd::prelude::*;
use crate::ordering::{stable_order, stable_order_determined};
use crate::reconstruction::junctions::{along, chain_of, edge_chains, edge_place, edges_distinct, expanded, expanded_at, expanded_length, interned_keeps, junctions_agree, nearest_is, next_of, part_start, piece_inherits, pieces_inherit, placed_keys, points_taken, registration_is_determined, ring_starts, second_run_makes_no_vertex, second_run_splits_alike, segment_added, split_ring_stays, splits_edge, splitting, use_start, within, without_repeats, Junctions, Kind, Placed, Segment, SplitCandidate, SplitVertices};
use crate::reconstruction::{after, edge_key, intern_ring, intern_rings, uses_of_ring, EdgeUse, Model, Surface};
use crate::scalar::Scalar;

verus! {

/// What is measured of the vertices of a model. A vertex keeps its place, so that this
/// is the same from one run to the next.
pub ghost struct Metric {
    /// Distance of a split point from a vertex.
    pub to_point: spec_fn(int, int) -> Scalar,
    /// Distance of an end of a segment, the first or the second, from a vertex.
    pub to_end: spec_fn(int, int, usize) -> Scalar,
    /// Distance between two vertices.
    pub between: spec_fn(usize, usize) -> Scalar,
    /// Parameter of a vertex on the segment between two others, where it lies on it.
    pub along: spec_fn(usize, usize, usize) -> Option<Scalar>,
}

/// A segment in which two surfaces meet.
pub ghost struct Found {
    pub surfaces: [usize; 2],
    pub kind: Kind,
}

/// What a run sees: the segments, the measures and the tolerances.
pub ghost struct Sight {
    pub found: Seq<Found>,
    pub metric: Metric,
    pub tolerance: Scalar,
    pub minimum_edge: Scalar,
}

pub open spec fn candidate_on(metric: Metric, vertex: usize, a: usize, b: usize) -> SplitCandidate {
    SplitCandidate {
        vertex,
        t: (metric.along)(vertex, a, b)->0,
        from_start: (metric.between)(a, vertex),
        from_end: (metric.between)(b, vertex),
    }
}

/// The split vertices that lie on an edge, other than its ends.
pub open spec fn lying(metric: Metric, split: Seq<usize>, a: usize, b: usize, upto: int) -> Seq<SplitCandidate>
    decreases upto,
{
    if upto <= 0 {
        Seq::empty()
    } else {
        let rest = lying(metric, split, a, b, upto - 1);
        let vertex = split[upto - 1];
        if vertex != a && vertex != b && (metric.along)(vertex, a, b) is Some {
            rest.push(candidate_on(metric, vertex, a, b))
        } else {
            rest
        }
    }
}

/// The split vertices that a segment passes.
pub open spec fn passing(metric: Metric, split: Seq<usize>, a: usize, b: usize, upto: int) -> Seq<Placed>
    decreases upto,
{
    if upto <= 0 {
        Seq::empty()
    } else {
        let rest = passing(metric, split, a, b, upto - 1);
        let vertex = split[upto - 1];
        if (metric.along)(vertex, a, b) is Some {
            rest.push(Placed { vertex, t: (metric.along)(vertex, a, b)->0 })
        } else {
            rest
        }
    }
}

/// The candidates on the edges of a ring are those that lie on them.
pub open spec fn candidates_measured(
    candidates: Seq<Vec<SplitCandidate>>,
    ring: Seq<usize>,
    split: Seq<usize>,
    metric: Metric,
) -> bool {
    &&& candidates.len() == ring.len()
    &&& forall|i: int|
        0 <= i < ring.len() ==> (#[trigger] candidates[i])@ == lying(
            metric,
            split,
            ring[i],
            next_of(ring, i),
            split.len() as int,
        )
}

/// A ring as it is read from a boundary, with its edges split.
pub open spec fn ring_rebuilt(
    uses: Seq<EdgeUse>,
    edges: Seq<[usize; 2]>,
    split: Seq<usize>,
    sight: Sight,
    ring: Seq<usize>,
    candidates: Seq<Vec<SplitCandidate>>,
    chains: Seq<Seq<usize>>,
    r: Seq<usize>,
) -> bool {
    &&& ring_starts(ring, uses, edges)
    &&& candidates_measured(candidates, ring, split, sight.metric)
    &&& edge_chains(chains, ring, candidates, sight.minimum_edge)
    &&& r == expanded(ring, chains, ring.len() as int)
}

pub open spec fn surface_rebuilt(
    surface: Surface,
    edges: Seq<[usize; 2]>,
    split: Seq<usize>,
    sight: Sight,
    rings: Seq<Vec<usize>>,
) -> bool {
    &&& rings.len() == surface.boundaries@.len()
    &&& forall|r: int|
        0 <= r < rings.len() ==> exists|
            ring: Seq<usize>,
            candidates: Seq<Vec<SplitCandidate>>,
            chains: Seq<Seq<usize>>,
        | #[trigger]
            ring_rebuilt(surface.boundaries@[r]@, edges, split, sight, ring, candidates, chains, (#[trigger] rings[r])@)
}

/// The edges of all rings, in the order of the surfaces.
pub open spec fn model_edges(rings: Seq<Seq<Vec<usize>>>, upto: int) -> Seq<[usize; 2]>
    decreases upto,
{
    if upto <= 0 {
        Seq::empty()
    } else {
        intern_rings(model_edges(rings, upto - 1), rings[upto - 1], rings[upto - 1].len() as int)
    }
}

/// The model with its boundaries split: what adding its surfaces anew comes to.
pub open spec fn model_rebuilt(
    before: Model,
    after: Model,
    split: Seq<usize>,
    sight: Sight,
    rings: Seq<Seq<Vec<usize>>>,
) -> bool {
    &&& rings.len() == before.spec_surfaces().len()
    &&& after.spec_surfaces().len() == before.spec_surfaces().len()
    &&& after.spec_edges() == model_edges(rings, rings.len() as int)
    &&& forall|s: int|
        0 <= s < rings.len() ==> surface_rebuilt(
            before.spec_surfaces()[s],
            before.spec_edges(),
            split,
            sight,
            #[trigger] rings[s],
        )
    &&& forall|s: int|
        0 <= s < rings.len() ==> after.spec_surfaces()[s].boundaries@.len() == (#[trigger] rings[s]).len()
    &&& forall|s: int, r: int|
        0 <= s < rings.len() && 0 <= r < rings[s].len() ==> uses_of_ring(
            after.spec_surfaces()[s].boundaries@[r]@,
            (#[trigger] rings[s][r])@,
            after.spec_edges(),
        )
}

pub open spec fn end_distances(metric: Metric, s: int, end: int, split: Seq<usize>) -> Seq<Scalar> {
    Seq::new(split.len(), |k: int| (metric.to_end)(s, end, split[k]))
}

pub open spec fn chain_lengths(metric: Metric, chain: Seq<usize>) -> Seq<Scalar> {
    Seq::new(
        (if chain.len() == 0 {
            0
        } else {
            chain.len() - 1
        }) as nat,
        |k: int| (metric.between)(chain[k], chain[k + 1]),
    )
}

/// A segment is registered between the split vertices nearest to its ends, with those
/// that it passes. One that is too short is left out.
pub open spec fn segment_step(
    before: Junctions,
    after: Junctions,
    s: int,
    split: Seq<usize>,
    sight: Sight,
    k: int,
    l: int,
    chain: Seq<usize>,
) -> bool {
    let metric = sight.metric;
    &&& nearest_is(end_distances(metric, s, 0, split), sight.tolerance, k)
    &&& nearest_is(end_distances(metric, s, 1, split), sight.tolerance, l)
    &&& chain_of(chain, passing(metric, split, split[k], split[l], split.len() as int))
    &&& if (metric.between)(split[k], split[l]).le(sight.minimum_edge) {
        after == before
    } else {
        segment_added(
            before,
            after,
            Segment {
                surfaces: sight.found[s].surfaces,
                kind: sight.found[s].kind,
                vertices: [split[k], split[l]],
                length: (metric.between)(split[k], split[l]),
            },
            chain,
            chain_lengths(metric, chain),
            sight.minimum_edge,
        )
    }
}

pub open spec fn segment_taken(before: Junctions, after: Junctions, s: int, split: Seq<usize>, sight: Sight) -> bool {
    exists|k: int, l: int, chain: Seq<usize>| #[trigger] segment_step(before, after, s, split, sight, k, l, chain)
}

/// A run from a model to a conforming one.
pub ghost struct Pass {
    pub before: Model,
    pub after: Model,
    /// The vertices after each split point, and the vertex that each took.
    pub taken: Seq<SplitVertices>,
    pub chosen: Seq<usize>,
    /// The rings of the surfaces with their edges split.
    pub rings: Seq<Seq<Vec<usize>>>,
    /// What is registered after each segment.
    pub steps: Seq<Junctions>,
}

impl Pass {
    pub open spec fn split(self) -> Seq<usize> {
        self.taken.last().split@
    }

    /// The run does what it sees. Without segments nothing is split.
    pub open spec fn conforms(self, sight: Sight) -> bool {
        &&& points_taken(self.taken, self.chosen, sight.metric.to_point, sight.tolerance)
        &&& self.taken[0].count == self.before.spec_vertices().len()
        &&& self.taken[0].split@ == Seq::<usize>::empty()
        &&& self.after.spec_vertices().len() == self.taken.last().count
        &&& self.after.spec_vertices().take(self.before.spec_vertices().len() as int) == self.before.spec_vertices()
        &&& if sight.found.len() == 0 {
            self.after == self.before
        } else {
            model_rebuilt(self.before, self.after, self.split(), sight, self.rings)
        }
        &&& self.steps.len() == sight.found.len() + 1
        &&& self.steps[0].edges@ == self.after.spec_edges()
        &&& self.steps[0].of_surface@.len() == self.after.spec_surfaces().len()
        &&& forall|s: int| 0 <= s < self.steps[0].of_surface@.len() ==> (#[trigger] self.steps[0].of_surface@[s])@.len() == 0
        &&& self.steps[0].shared@.len() == 0
        &&& self.steps[0].segments@.len() == 0
        &&& forall|s: int|
            0 <= s < sight.found.len() ==> segment_taken(
                self.steps[s],
                #[trigger] self.steps[s + 1],
                s,
                self.split(),
                sight,
            )
    }

    /// Every split point is within the tolerance of the vertex it took and of no other.
    pub open spec fn points_settled(self, sight: Sight) -> bool {
        &&& forall|q: int|
            0 <= q < self.chosen.len() ==> within((sight.metric.to_point)(q, #[trigger] self.chosen[q] as int), sight.tolerance)
        &&& forall|q: int, v: int, w: int|
            0 <= q < self.chosen.len() && 0 <= v < self.taken.last().count && 0 <= w < self.taken.last().count
                && within(#[trigger] (sight.metric.to_point)(q, v), sight.tolerance) && within(
                #[trigger] (sight.metric.to_point)(q, w),
                sight.tolerance,
            ) ==> v == w
    }
}

/// The vertex splits the edge.
pub open spec fn splits_at(metric: Metric, vertex: usize, a: usize, b: usize, minimum_edge: Scalar) -> bool {
    (metric.along)(vertex, a, b) is Some && splits_edge(candidate_on(metric, vertex, a, b), a, b, minimum_edge)
}

/// The order of vertices on an edge.
pub open spec fn place_on(metric: Metric, vertex: usize, a: usize, b: usize) -> int {
    (metric.along)(vertex, a, b)->0.total_rank() * 0x1_0000_0000_0000_0000 + vertex
}

/// The ends of piece `p` of an edge that is split by a chain.
pub open spec fn piece_start(chain: Seq<usize>, a: usize, p: int) -> usize {
    if p == 0 {
        a
    } else {
        chain[p - 1]
    }
}

pub open spec fn piece_end(chain: Seq<usize>, b: usize, p: int) -> usize {
    if p == chain.len() {
        b
    } else {
        chain[p]
    }
}

pub open spec fn piece_on_edge(
    metric: Metric,
    minimum_edge: Scalar,
    a: usize,
    b: usize,
    chain: Seq<usize>,
    p: int,
    vertex: usize,
) -> bool {
    splits_at(metric, vertex, piece_start(chain, a, p), piece_end(chain, b, p), minimum_edge) ==> {
        &&& splits_at(metric, vertex, a, b, minimum_edge)
        &&& p > 0 ==> place_on(metric, chain[p - 1], a, b) <= place_on(metric, vertex, a, b)
        &&& p < chain.len() ==> place_on(metric, vertex, a, b) <= place_on(metric, chain[p], a, b)
    }
}

/// A split vertex that splits a piece of an edge splits the edge, between the ends of
/// the piece.
pub open spec fn pieces_on_edges(split: Seq<usize>, sight: Sight) -> bool {
    forall|a: usize, b: usize, chain: Seq<usize>, p: int, vertex: usize|
        chain_of(
            chain,
            splitting(
                lying(sight.metric, split, a, b, split.len() as int),
                a,
                b,
                sight.minimum_edge,
                lying(sight.metric, split, a, b, split.len() as int).len() as int,
            ),
        ) && 0 <= p <= chain.len() && split.contains(vertex) ==> #[trigger] piece_on_edge(
            sight.metric,
            sight.minimum_edge,
            a,
            b,
            chain,
            p,
            vertex,
        )
}

proof fn lying_has(metric: Metric, split: Seq<usize>, a: usize, b: usize, upto: int, k: int)
    requires
        0 <= upto <= split.len(),
        0 <= k < lying(metric, split, a, b, upto).len(),
    ensures
        ({
            let c = lying(metric, split, a, b, upto)[k];
            split.contains(c.vertex) && c == candidate_on(metric, c.vertex, a, b) && (metric.along)(c.vertex, a, b) is Some
        }),
    decreases upto,
{
    let rest = lying(metric, split, a, b, upto - 1);
    if k < rest.len() {
        lying_has(metric, split, a, b, upto - 1, k);
        assert(lying(metric, split, a, b, upto)[k] == rest[k]);
    } else {
        assert(split.contains(split[upto - 1]));
    }
}

proof fn lying_lists(metric: Metric, split: Seq<usize>, a: usize, b: usize, upto: int, m: int) -> (k: int)
    requires
        0 <= m < upto <= split.len(),
        split[m] != a,
        split[m] != b,
        (metric.along)(split[m], a, b) is Some,
    ensures
        0 <= k < lying(metric, split, a, b, upto).len(),
        lying(metric, split, a, b, upto)[k] == candidate_on(metric, split[m], a, b),
    decreases upto,
{
    let rest = lying(metric, split, a, b, upto - 1);
    if m < upto - 1 {
        let k = lying_lists(metric, split, a, b, upto - 1, m);
        assert(lying(metric, split, a, b, upto)[k] == rest[k]);
        k
    } else {
        rest.len() as int
    }
}

/// A ring that was split stays as it is when it is split anew.
proof fn ring_stays(
    ring: Seq<usize>,
    candidates: Seq<Vec<SplitCandidate>>,
    chains: Seq<Seq<usize>>,
    again: Seq<Vec<SplitCandidate>>,
    further: Seq<Seq<usize>>,
    split: Seq<usize>,
    sight: Sight,
)
    requires
        candidates_measured(candidates, ring, split, sight.metric),
        edge_chains(chains, ring, candidates, sight.minimum_edge),
        candidates_measured(again, expanded(ring, chains, ring.len() as int), split, sight.metric),
        edge_chains(further, expanded(ring, chains, ring.len() as int), again, sight.minimum_edge),
        pieces_on_edges(split, sight),
    ensures
        expanded(
            expanded(ring, chains, ring.len() as int),
            further,
            expanded(ring, chains, ring.len() as int).len() as int,
        ) == expanded(ring, chains, ring.len() as int),
{
    let metric = sight.metric;
    let n = ring.len() as int;
    let whole = expanded(ring, chains, n);
    let places = |i: int, vertex: usize| (metric.along)(vertex, ring[i], next_of(ring, i))->0;
    assert forall|i: int, k: int| 0 <= i < ring.len() && 0 <= k < candidates[i]@.len() implies (#[trigger] candidates[i]@[k]).t == places(i, candidates[i]@[k].vertex) by {
        assert(candidates[i]@ == lying(metric, split, ring[i], next_of(ring, i), split.len() as int));
        lying_has(metric, split, ring[i], next_of(ring, i), split.len() as int, k);
    }
    expanded_length(ring, chains, n);
    assert forall|i: int, p: int, m: int|
        0 <= i < ring.len() && 0 <= p <= chains[i].len() && 0 <= m < again[part_start(chains, i) + p]@.len() implies #[trigger] piece_inherits(
        ring,
        chains,
        candidates,
        places,
        again[part_start(chains, i) + p]@[m],
        i,
        p,
        sight.minimum_edge,
    ) by {
        let at = part_start(chains, i) + p;
        let (a, b) = (ring[i], next_of(ring, i));
        let chain = chains[i];
        expanded_at(ring, chains, n, i, p);
        let here = whole[at];
        let next = next_of(whole, at);
        assert(here == piece_start(chain, a, p));
        assert(next == piece_end(chain, b, p)) by {
            if p < chain.len() {
                expanded_at(ring, chains, n, i, p + 1);
            } else if i + 1 < n {
                expanded_at(ring, chains, n, i + 1, 0);
                assert(part_start(chains, i + 1) == at + 1);
            } else {
                assert(part_start(chains, n) == at + 1);
                expanded_at(ring, chains, n, 0, 0);
                assert(part_start(chains, 0) == 0);
            }
        }
        let candidate = again[at]@[m];
        assert(again[at]@ == lying(metric, split, here, next, split.len() as int));
        lying_has(metric, split, here, next, split.len() as int, m);
        let vertex = candidate.vertex;
        if splits_edge(candidate, here, next, sight.minimum_edge) {
            assert(splits_at(metric, vertex, here, next, sight.minimum_edge));
            let listed = lying(metric, split, a, b, split.len() as int);
            assert(candidates[i]@ == listed);
            assert(chain_of(chain, splitting(listed, a, b, sight.minimum_edge, listed.len() as int)));
            assert(piece_on_edge(metric, sight.minimum_edge, a, b, chain, p, vertex));
            let at_split = choose|k: int| 0 <= k < split.len() && split[k] == vertex;
            let k = lying_lists(metric, split, a, b, split.len() as int, at_split);
            assert(candidates[i]@[k].vertex == vertex);
            assert(splits_edge(candidates[i]@[k], a, b, sight.minimum_edge));
            assert(edge_place(places, i, vertex) == place_on(metric, vertex, a, b));
            if p > 0 {
                assert(edge_place(places, i, chain[p - 1]) == place_on(metric, chain[p - 1], a, b));
            }
            if p < chain.len() {
                assert(edge_place(places, i, chain[p]) == place_on(metric, chain[p], a, b));
            }
        }
    }
    assert(pieces_inherit(ring, chains, candidates, places, again, sight.minimum_edge));
    split_ring_stays(ring, chains, candidates, places, again, further, sight.minimum_edge);
}

proof fn interned_ring_keeps(edges: Seq<[usize; 2]>, ring: Seq<usize>, upto: int)
    requires
        edges_distinct(edges),
    ensures
        edges_distinct(intern_ring(edges, ring, upto)),
    decreases upto,
{
    if upto > 0 {
        interned_ring_keeps(edges, ring, upto - 1);
        interned_keeps(intern_ring(edges, ring, upto - 1), edge_key(ring[upto - 1], after(ring, upto - 1)));
    }
}

proof fn interned_rings_keep(edges: Seq<[usize; 2]>, rings: Seq<Vec<usize>>, upto: int)
    requires
        edges_distinct(edges),
    ensures
        edges_distinct(intern_rings(edges, rings, upto)),
    decreases upto,
{
    if upto > 0 {
        interned_rings_keep(edges, rings, upto - 1);
        interned_ring_keeps(intern_rings(edges, rings, upto - 1), rings[upto - 1]@, rings[upto - 1]@.len() as int);
    }
}

proof fn model_edges_distinct(rings: Seq<Seq<Vec<usize>>>, upto: int)
    ensures
        edges_distinct(model_edges(rings, upto)),
    decreases upto,
{
    if upto > 0 {
        model_edges_distinct(rings, upto - 1);
        interned_rings_keep(model_edges(rings, upto - 1), rings[upto - 1], rings[upto - 1].len() as int);
    }
}

proof fn same_rings_same_edges(edges: Seq<[usize; 2]>, a: Seq<Vec<usize>>, b: Seq<Vec<usize>>, upto: int)
    requires
        0 <= upto <= a.len(),
        a.len() == b.len(),
        forall|r: int| 0 <= r < a.len() ==> (#[trigger] a[r])@ == b[r]@,
    ensures
        intern_rings(edges, a, upto) == intern_rings(edges, b, upto),
    decreases upto,
{
    if upto > 0 {
        same_rings_same_edges(edges, a, b, upto - 1);
        assert(a[upto - 1]@ == b[upto - 1]@);
    }
}

spec fn same_rings(a: Seq<Seq<Vec<usize>>>, b: Seq<Seq<Vec<usize>>>) -> bool {
    &&& a.len() == b.len()
    &&& forall|s: int| 0 <= s < a.len() ==> (#[trigger] a[s]).len() == b[s].len()
    &&& forall|s: int, r: int| 0 <= s < a.len() && 0 <= r < a[s].len() ==> (#[trigger] a[s][r])@ == b[s][r]@
}

proof fn same_model_edges(a: Seq<Seq<Vec<usize>>>, b: Seq<Seq<Vec<usize>>>, upto: int)
    requires
        same_rings(a, b),
        0 <= upto <= a.len(),
    ensures
        model_edges(a, upto) == model_edges(b, upto),
    decreases upto,
{
    if upto > 0 {
        same_model_edges(a, b, upto - 1);
        let s = upto - 1;
        assert(a[s].len() == b[s].len());
        assert forall|r: int| 0 <= r < a[s].len() implies (#[trigger] a[s][r])@ == b[s][r]@ by {}
        same_rings_same_edges(model_edges(a, s), a[s], b[s], a[s].len() as int);
    }
}

/// A boundary is read back as the ring that it was made of.
proof fn ring_reads_back(uses: Seq<EdgeUse>, made: Seq<usize>, read: Seq<usize>, edges: Seq<[usize; 2]>)
    requires
        uses_of_ring(uses, made, edges),
        ring_starts(read, uses, edges),
    ensures
        read == made,
{
    assert forall|i: int| 0 <= i < made.len() implies read[i] == made[i] by {
        assert(uses[i].edge < edges.len());
        assert(read[i] == use_start(edges, uses[i]));
    }
    assert(read =~= made);
}

proof fn boundary_determined(one: Seq<EdgeUse>, two: Seq<EdgeUse>, ring: Seq<usize>, edges: Seq<[usize; 2]>)
    requires
        uses_of_ring(one, ring, edges),
        uses_of_ring(two, ring, edges),
        edges_distinct(edges),
    ensures
        one == two,
{
    assert forall|i: int| 0 <= i < ring.len() implies one[i] == two[i] by {
        let (e, f) = (one[i].edge as int, two[i].edge as int);
        if e < f {
            assert(edges[e] != edges[f]);
        } else if f < e {
            assert(edges[f] != edges[e]);
        }
    }
    assert(one =~= two);
}

proof fn nearest_determined(distances: Seq<Scalar>, tolerance: Scalar, i: int, j: int)
    requires
        nearest_is(distances, tolerance, i),
        nearest_is(distances, tolerance, j),
    ensures
        i == j,
{
    if i < j {
        assert(within(distances[i], tolerance));
    } else if j < i {
        assert(within(distances[j], tolerance));
    }
}

proof fn chain_determined(a: Seq<usize>, b: Seq<usize>, items: Seq<Placed>)
    requires
        chain_of(a, items),
        chain_of(b, items),
    ensures
        a == b,
{
    let first = choose|order: Seq<usize>| #[trigger] along(order, items) && a == without_repeats(order, items, items.len() as int);
    let second = choose|order: Seq<usize>| #[trigger] along(order, items) && b == without_repeats(order, items, items.len() as int);
    let one = choose|keys: Seq<i128>| #[trigger] placed_keys(keys, items) && stable_order(keys, first);
    let two = choose|keys: Seq<i128>| #[trigger] placed_keys(keys, items) && stable_order(keys, second);
    assert forall|k: int| 0 <= k < items.len() implies one[k] == two[k] by {
        assert(one[k] == items[k].t.total_rank() * 0x1_0000_0000_0000_0000 + items[k].vertex);
        assert(two[k] == items[k].t.total_rank() * 0x1_0000_0000_0000_0000 + items[k].vertex);
    }
    assert(one =~= two);
    stable_order_determined(one, first, second);
}

proof fn steps_agree(first: Pass, second: Pass, sight: Sight, upto: int)
    requires
        first.conforms(sight),
        second.conforms(sight),
        first.split() == second.split(),
        junctions_agree(first.steps[0], second.steps[0]),
        0 <= upto <= sight.found.len(),
    ensures
        junctions_agree(first.steps[upto], second.steps[upto]),
    decreases upto,
{
    if upto > 0 {
        let s = upto - 1;
        steps_agree(first, second, sight, s);
        let split = first.split();
        assert(segment_taken(first.steps[s], first.steps[s + 1], s, split, sight));
        assert(segment_taken(second.steps[s], second.steps[s + 1], s, split, sight));
        let (k, l, chain) = choose|k: int, l: int, chain: Seq<usize>| #[trigger]
            segment_step(first.steps[s], first.steps[s + 1], s, split, sight, k, l, chain);
        let (k2, l2, chain2) = choose|k: int, l: int, chain: Seq<usize>| #[trigger]
            segment_step(second.steps[s], second.steps[s + 1], s, split, sight, k, l, chain);
        nearest_determined(end_distances(sight.metric, s, 0, split), sight.tolerance, k, k2);
        nearest_determined(end_distances(sight.metric, s, 1, split), sight.tolerance, l, l2);
        chain_determined(chain, chain2, passing(sight.metric, split, split[k], split[l], split.len() as int));
        if !(sight.metric.between)(split[k], split[l]).le(sight.minimum_edge) {
            let segment = Segment {
                surfaces: sight.found[s].surfaces,
                kind: sight.found[s].kind,
                vertices: [split[k], split[l]],
                length: (sight.metric.between)(split[k], split[l]),
            };
            registration_is_determined(
                first.steps[s],
                first.steps[s + 1],
                second.steps[s],
                second.steps[s + 1],
                segment,
                chain,
                chain_lengths(sight.metric, chain),
                sight.minimum_edge,
            );
        }
    }
}

/// A second run over the conforming model makes no vertex, whatever splits it.
pub proof fn second_pass_makes_no_vertex(first: Pass, second: Pass, sight: Sight)
    requires
        first.conforms(sight),
        second.conforms(sight),
        second.before == first.after,
        second.chosen.len() == first.chosen.len(),
        forall|q: int|
            0 <= q < first.chosen.len() ==> within((sight.metric.to_point)(q, #[trigger] first.chosen[q] as int), sight.tolerance),
    ensures
        second.after.spec_vertices() == first.after.spec_vertices(),
{
    second_run_makes_no_vertex(first.taken, first.chosen, second.taken, second.chosen, sight.metric.to_point, sight.tolerance);
    assert(second.after.spec_vertices() =~= first.after.spec_vertices().take(first.after.spec_vertices().len() as int));
    assert(first.after.spec_vertices().take(first.after.spec_vertices().len() as int) =~= first.after.spec_vertices());
}

/// A second run over the conforming model changes nothing. It makes no vertex, and the
/// edges, the boundaries of every surface and the junctions are those that the first run
/// left.
pub proof fn second_pass_changes_nothing(first: Pass, second: Pass, sight: Sight)
    requires
        first.conforms(sight),
        second.conforms(sight),
        second.before == first.after,
        second.chosen.len() == first.chosen.len(),
        first.points_settled(sight),
        pieces_on_edges(first.split(), sight),
    ensures
        second.taken.last().count == first.taken.last().count,
        second.after.spec_vertices() == first.after.spec_vertices(),
        second.after.spec_edges() == first.after.spec_edges(),
        second.after.spec_surfaces().len() == first.after.spec_surfaces().len(),
        forall|s: int|
            0 <= s < first.after.spec_surfaces().len() ==> (#[trigger] second.after.spec_surfaces()[s]).boundaries@.len()
                == first.after.spec_surfaces()[s].boundaries@.len(),
        forall|s: int, r: int|
            0 <= s < first.after.spec_surfaces().len() && 0 <= r < first.after.spec_surfaces()[s].boundaries@.len()
                ==> (#[trigger] second.after.spec_surfaces()[s].boundaries@[r])@
                == first.after.spec_surfaces()[s].boundaries@[r]@,
        junctions_agree(first.steps.last(), second.steps.last()),
{
    second_pass_makes_no_vertex(first, second, sight);
    second_run_splits_alike(first.taken, first.chosen, second.taken, second.chosen, sight.metric.to_point, sight.tolerance);
    let split = first.split();
    if sight.found.len() > 0 {
        let edges = first.after.spec_edges();
        let (one, two) = (first.rings, second.rings);
        assert forall|s: int| 0 <= s < one.len() implies (#[trigger] one[s]).len() == two[s].len() by {
            assert(surface_rebuilt(second.before.spec_surfaces()[s], second.before.spec_edges(), split, sight, two[s]));
        }
        assert forall|s: int, r: int| 0 <= s < one.len() && 0 <= r < one[s].len() implies (#[trigger] one[s][r])@ == two[s][r]@ by {
            assert(one[s].len() == two[s].len());
            assert(surface_rebuilt(first.before.spec_surfaces()[s], first.before.spec_edges(), split, sight, one[s]));
            assert(surface_rebuilt(second.before.spec_surfaces()[s], second.before.spec_edges(), split, sight, two[s]));
            let made = first.before.spec_surfaces()[s].boundaries@[r]@;
            let uses = first.after.spec_surfaces()[s].boundaries@[r]@;
            let (ring, candidates, chains) = choose|ring: Seq<usize>, candidates: Seq<Vec<SplitCandidate>>, chains: Seq<Seq<usize>>| #[trigger]
                ring_rebuilt(made, first.before.spec_edges(), split, sight, ring, candidates, chains, one[s][r]@);
            assert(r < two[s].len());
            let (read, again, further) = choose|ring: Seq<usize>, candidates: Seq<Vec<SplitCandidate>>, chains: Seq<Seq<usize>>| #[trigger]
                ring_rebuilt(uses, edges, split, sight, ring, candidates, chains, two[s][r]@);
            assert(uses_of_ring(uses, one[s][r]@, edges));
            ring_reads_back(uses, one[s][r]@, read, edges);
            ring_stays(ring, candidates, chains, again, further, split, sight);
        }
        assert(same_rings(one, two));
        same_model_edges(one, two, one.len() as int);
        model_edges_distinct(one, one.len() as int);
        assert forall|s: int| 0 <= s < first.after.spec_surfaces().len() implies (#[trigger] second.after.spec_surfaces()[s]).boundaries@.len() == first.after.spec_surfaces()[s].boundaries@.len() by {
            assert(one[s].len() == two[s].len());
        }
        assert forall|s: int, r: int|
            0 <= s < first.after.spec_surfaces().len() && 0 <= r < first.after.spec_surfaces()[s].boundaries@.len() implies (#[trigger] second.after.spec_surfaces()[s].boundaries@[r])@ == first.after.spec_surfaces()[s].boundaries@[r]@ by {
            assert(one[s].len() == two[s].len());
            assert(one[s][r]@ == two[s][r]@);
            boundary_determined(
                second.after.spec_surfaces()[s].boundaries@[r]@,
                first.after.spec_surfaces()[s].boundaries@[r]@,
                one[s][r]@,
                edges,
            );
        }
    }
    assert(junctions_agree(first.steps[0], second.steps[0])) by {
        assert forall|s: int| 0 <= s < first.steps[0].of_surface@.len() implies (#[trigger] first.steps[0].of_surface@[s])@ == second.steps[0].of_surface@[s]@ by {
            assert(first.steps[0].of_surface@[s]@ =~= second.steps[0].of_surface@[s]@);
        }
        assert(first.steps[0].shared@ =~= second.steps[0].shared@);
        assert(first.steps[0].segments@ =~= second.steps[0].segments@);
    }
    steps_agree(first, second, sight, sight.found.len() as int);
}

/// A vertex is a candidate on an edge exactly when it lies on it and is none of its ends.
pub proof fn candidates_lie_on_the_edge(metric: Metric, split: Seq<usize>, a: usize, b: usize, upto: int, candidate: SplitCandidate)
    requires
        0 <= upto <= split.len(),
    ensures
        lying(metric, split, a, b, upto).contains(candidate) <==> exists|k: int|
            0 <= k < upto && #[trigger] split[k] == candidate.vertex && candidate.vertex != a && candidate.vertex != b && (metric.along)(
                candidate.vertex,
                a,
                b,
            ) == Some(candidate.t) && candidate.from_start == (metric.between)(a, candidate.vertex) && candidate.from_end == (
            metric.between)(b, candidate.vertex),
    decreases upto,
{
    if upto > 0 {
        candidates_lie_on_the_edge(metric, split, a, b, upto - 1, candidate);
        let vertex = split[upto - 1];
        crate::ordering::pushed_contains(lying(metric, split, a, b, upto - 1), candidate_on(metric, vertex, a, b), candidate);
    }
}

/// A segment passes a vertex exactly when it lies on it.
pub proof fn segments_pass_what_lies_on_them(metric: Metric, split: Seq<usize>, a: usize, b: usize, upto: int, placed: Placed)
    requires
        0 <= upto <= split.len(),
    ensures
        passing(metric, split, a, b, upto).contains(placed) <==> split.take(upto).contains(placed.vertex) && (metric.along)(
            placed.vertex,
            a,
            b,
        ) == Some(placed.t),
    decreases upto,
{
    if upto > 0 {
        segments_pass_what_lies_on_them(metric, split, a, b, upto - 1, placed);
        assert(split.take(upto) =~= split.take(upto - 1).push(split[upto - 1]));
        crate::ordering::pushed_contains(split.take(upto - 1), split[upto - 1], placed.vertex);
        let vertex = split[upto - 1];
        crate::ordering::pushed_contains(
            passing(metric, split, a, b, upto - 1),
            (Placed { vertex, t: (metric.along)(vertex, a, b)->0 }),
            placed,
        );
    }
}

} // verus!
