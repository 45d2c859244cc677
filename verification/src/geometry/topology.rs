//! Common boundary vertices and edges of panels. This is geometric connectivity,
//! not a declaration of mechanical ties or interfaces.
use vstd::prelude::*;
use crate::edges::{key, key_of, same_edge, Edge};
use crate::input::Point;
use crate::ordering::{ascending_indices, lists_distinct_indices, lists_index, sorted_indices, stable_order, unique_indices};
use crate::scalar::Scalar;

verus! {

#[derive(Debug, Clone, Copy, PartialEq, Eq, Structural)]
pub struct TopologySummary {
    pub merged_vertices: usize,
    pub snapped_junctions: usize,
    pub inserted_vertices: usize,
    pub connected_panel_pairs: usize,
    pub unresolved_near_junctions: usize,
    pub max_displacement: Scalar,
}

impl Default for TopologySummary {
    fn default() -> (r: TopologySummary)
        ensures
            r == (TopologySummary {
                merged_vertices: 0,
                snapped_junctions: 0,
                inserted_vertices: 0,
                connected_panel_pairs: 0,
                unresolved_near_junctions: 0,
                max_displacement: Scalar::spec_zero(),
            }),
    {
        TopologySummary {
            merged_vertices: 0,
            snapped_junctions: 0,
            inserted_vertices: 0,
            connected_panel_pairs: 0,
            unresolved_near_junctions: 0,
            max_displacement: Scalar::zero(),
        }
    }
}

/// Vertices of panel boundaries. Merged vertices form a tree whose root stands for
/// all of them.
pub struct Graph {
    points: Vec<Point>,
    origins: Vec<Vec<Point>>,
    owners: Vec<Vec<usize>>,
    parent: Vec<usize>,
    rings: Vec<Vec<Vec<usize>>>,
    roots: Ghost<Seq<usize>>,
    heights: Ghost<Seq<nat>>,
}

pub open spec fn ring_points(polygon: Seq<Vec<Point>>, upto: int) -> Seq<Point>
    decreases upto,
{
    if upto <= 0 {
        Seq::empty()
    } else {
        ring_points(polygon, upto - 1) + polygon[upto - 1]@
    }
}

/// The points of all panels, one after the other.
pub open spec fn panel_points(polygons: Seq<Vec<Vec<Point>>>, upto: int) -> Seq<Point>
    decreases upto,
{
    if upto <= 0 {
        Seq::empty()
    } else {
        panel_points(polygons, upto - 1) + ring_points(
            polygons[upto - 1]@,
            polygons[upto - 1]@.len() as int,
        )
    }
}

pub open spec fn disjoint(a: Seq<usize>, b: Seq<usize>) -> bool {
    forall|x: usize| a.contains(x) ==> !#[trigger] b.contains(x)
}

fn are_disjoint(a: &Vec<usize>, b: &Vec<usize>) -> (r: bool)
    ensures
        r == disjoint(a@, b@),
{
    let mut k: usize = 0;
    while k < a.len()
        invariant
            k <= a@.len(),
            forall|m: int| 0 <= m < k ==> !b@.contains(#[trigger] a@[m]),
        decreases a@.len() - k,
    {
        if lists_index(b, a[k]) {
            assert(a@.contains(a@[k as int]));
            assert(b@.contains(a@[k as int]));
            return false;
        }
        k += 1;
    }
    assert forall|x: usize| a@.contains(x) implies !#[trigger] b@.contains(x) by {
        let m = choose|m: int| 0 <= m < a@.len() && a@[m] == x;
        assert(!b@.contains(a@[m]));
    }
    true
}

fn united(a: &Vec<usize>, b: &Vec<usize>) -> (r: Vec<usize>)
    ensures
        lists_distinct_indices(r@, a@ + b@),
{
    let mut all: Vec<usize> = Vec::new();
    let mut k: usize = 0;
    while k < a.len()
        invariant
            k <= a@.len(),
            all@ =~= a@.take(k as int),
        decreases a@.len() - k,
    {
        all.push(a[k]);
        k += 1;
    }
    let mut k: usize = 0;
    while k < b.len()
        invariant
            k <= b@.len(),
            all@ =~= a@ + b@.take(k as int),
        decreases b@.len() - k,
    {
        all.push(b[k]);
        k += 1;
    }
    assert(all@ =~= a@ + b@);
    unique_indices(all)
}

/// What is measured of a merge of two vertices.
#[derive(Debug)]
pub struct MergeMeasure {
    /// Where the planes of both meet, if they do.
    pub point: Option<Point>,
    /// Distances of all original points to it.
    pub spreads: Vec<Scalar>,
    pub limit: Scalar,
    /// The panels stay valid with both vertices there.
    pub valid: bool,
}

pub open spec fn finite_point(point: Point) -> bool {
    point[0].finite() && point[1].finite() && point[2].finite()
}

pub fn is_finite_point(point: &Point) -> (r: bool)
    ensures
        r == finite_point(*point),
{
    point[0].is_finite() && point[1].is_finite() && point[2].is_finite()
}

pub open spec fn all_at_most(values: Seq<Scalar>, limit: Scalar) -> bool {
    forall|k: int| 0 <= k < values.len() ==> (#[trigger] values[k]).le(limit)
}

pub fn are_at_most(values: &Vec<Scalar>, limit: &Scalar) -> (r: bool)
    ensures
        r == all_at_most(values@, *limit),
{
    let mut k: usize = 0;
    while k < values.len()
        invariant
            k <= values@.len(),
            forall|m: int| 0 <= m < k ==> (#[trigger] values@[m]).le(*limit),
        decreases values@.len() - k,
    {
        if !values[k].at_most(limit) {
            assert(!values@[k as int].le(*limit));
            return false;
        }
        k += 1;
    }
    true
}

/// A merge that may be made.
pub open spec fn mergeable(measure: MergeMeasure) -> bool {
    &&& measure.point is Some
    &&& finite_point(measure.point->0)
    &&& all_at_most(measure.spreads@, measure.limit)
    &&& measure.valid
}

/// What is measured of a vertex that is drawn onto an edge.
#[derive(Debug)]
pub struct SnapMeasure {
    /// Where on the edge the vertex is nearest to.
    pub t: Scalar,
    pub distance: Scalar,
    pub tolerance: Scalar,
    /// Where the vertex goes, if its planes and the edge allow a place.
    pub point: Option<Point>,
    /// Where the ends of the edge go, if they must.
    pub ends: Option<[Point; 2]>,
    /// Distances of all original points of the moved vertices to their new places.
    pub spreads: Vec<Scalar>,
    pub limit: Scalar,
    /// Lengths of the two pieces of the edge.
    pub pieces: [Scalar; 2],
    pub shortest: Scalar,
    /// Distances of the new place to the planes it belongs to.
    pub residuals: Vec<Scalar>,
    pub precision: Scalar,
    /// The panels stay valid.
    pub valid: bool,
}

pub open spec fn inside_edge(t: Scalar) -> bool {
    !t.le(Scalar::spec_zero()) && !Scalar::spec_one().le(t)
}

/// A snap that may be made.
pub open spec fn snappable(measure: SnapMeasure) -> bool {
    &&& inside_edge(measure.t)
    &&& !measure.tolerance.lt(measure.distance)
    &&& measure.point is Some
    &&& all_at_most(measure.spreads@, measure.limit)
    &&& !measure.pieces[0].lt(measure.shortest)
    &&& !measure.pieces[1].lt(measure.shortest)
    &&& forall|k: int|
        0 <= k < measure.residuals@.len() ==> !measure.precision.lt(#[trigger] measure.residuals@[k])
    &&& measure.valid
}

fn none_above(values: &Vec<Scalar>, limit: &Scalar) -> (r: bool)
    ensures
        r == (forall|k: int| 0 <= k < values@.len() ==> !limit.lt(#[trigger] values@[k])),
{
    let mut k: usize = 0;
    while k < values.len()
        invariant
            k <= values@.len(),
            forall|m: int| 0 <= m < k ==> !limit.lt(#[trigger] values@[m]),
        decreases values@.len() - k,
    {
        if limit.less(&values[k]) {
            assert(limit.lt(values@[k as int]));
            return false;
        }
        k += 1;
    }
    true
}

fn is_snappable(measure: &SnapMeasure) -> (r: bool)
    ensures
        r == snappable(*measure),
{
    !measure.t.at_most(&Scalar::zero()) && !Scalar::one().at_most(&measure.t) && !measure.tolerance.less(
        &measure.distance,
    ) && measure.point.is_some() && are_at_most(&measure.spreads, &measure.limit) && !measure.pieces[0].less(
        &measure.shortest,
    ) && !measure.pieces[1].less(&measure.shortest) && none_above(&measure.residuals, &measure.precision)
        && measure.valid
}

impl Graph {
    pub closed spec fn roots(&self) -> Seq<usize> {
        self.roots@
    }

    pub closed spec fn points(&self) -> Seq<Point> {
        self.points@
    }

    pub closed spec fn owners(&self) -> Seq<Vec<usize>> {
        self.owners@
    }

    pub closed spec fn origins(&self) -> Seq<Vec<Point>> {
        self.origins@
    }

    pub closed spec fn rings(&self) -> Seq<Vec<Vec<usize>>> {
        self.rings@
    }

    pub closed spec fn well_formed(&self) -> bool {
        let n = self.points@.len();
        &&& self.origins@.len() == n
        &&& self.owners@.len() == n
        &&& self.parent@.len() == n
        &&& self.roots@.len() == n
        &&& self.heights@.len() == n
        &&& forall|i: int| 0 <= i < n ==> #[trigger] self.parent@[i] < n
        &&& forall|i: int|
            0 <= i < n ==> #[trigger] self.roots@[i] < n && self.roots@[i] == self.roots@[self.parent@[i] as int]
        &&& forall|i: int|
            0 <= i < n ==> ((#[trigger] self.parent@[i]) == i <==> self.roots@[i] == i)
        &&& forall|i: int|
            0 <= i < n && (#[trigger] self.parent@[i]) != i ==> self.heights@[i]
                < self.heights@[self.parent@[i] as int]
        &&& forall|i: int| 0 <= i < n ==> #[trigger] self.heights@[i] <= self.bound()
        &&& self.rings_known()
    }

    closed spec fn bound(&self) -> nat {
        tallest(self.heights@, self.heights@.len() as int)
    }

    pub closed spec fn rings_known(&self) -> bool {
        forall|p: int, r: int, k: int|
            0 <= p < self.rings@.len() && 0 <= r < self.rings@[p]@.len() && 0 <= k < self.rings@[p]@[r]@.len()
                ==> #[trigger] self.rings@[p]@[r]@[k] < self.points@.len()
    }

    /// The vertex that stands for a vertex.
    pub fn root(&self, vertex: usize) -> (r: usize)
        requires
            self.well_formed(),
            vertex < self.points().len(),
        ensures
            r == self.roots()[vertex as int],
            r < self.points().len(),
    {
        let mut i: usize = vertex;
        while self.parent[i] != i
            invariant
                self.well_formed(),
                i < self.points@.len(),
                self.roots@[i as int] == self.roots@[vertex as int],
            decreases self.bound() - self.heights@[i as int],
        {
            proof {
                assert(self.parent@[i as int] < self.points@.len());
                assert(self.roots@[i as int] == self.roots@[self.parent@[i as int] as int]);
                assert(self.heights@[self.parent@[i as int] as int] <= self.bound());
            }
            i = self.parent[i];
        }
        assert(self.parent@[i as int] == i);
        i
    }

    pub fn point(&self, vertex: usize) -> (r: Point)
        requires
            self.well_formed(),
            vertex < self.points().len(),
        ensures
            r == self.points()[vertex as int],
    {
        self.points[vertex]
    }

    pub fn len(&self) -> (r: usize)
        requires
            self.well_formed(),
        ensures
            r == self.points().len(),
    {
        self.points.len()
    }

    pub fn origins_of(&self, vertex: usize) -> (r: &Vec<Point>)
        requires
            self.well_formed(),
            vertex < self.points().len(),
        ensures
            *r == self.origins()[vertex as int],
    {
        &self.origins[vertex]
    }

    pub fn owners_of(&self, vertex: usize) -> (r: &Vec<usize>)
        requires
            self.well_formed(),
            vertex < self.points().len(),
        ensures
            *r == self.owners()[vertex as int],
    {
        &self.owners[vertex]
    }

    pub fn boundary(&self) -> (r: &Vec<Vec<Vec<usize>>>)
        ensures
            r@ == self.rings(),
    {
        &self.rings
    }
}

/// The greatest of the first heights.
spec fn tallest(heights: Seq<nat>, upto: int) -> nat
    decreases upto,
{
    if upto <= 0 {
        0
    } else if heights[upto - 1] > tallest(heights, upto - 1) {
        heights[upto - 1]
    } else {
        tallest(heights, upto - 1)
    }
}

proof fn tallest_bounds(heights: Seq<nat>, upto: int, i: int)
    requires
        0 <= i < upto <= heights.len(),
    ensures
        heights[i] <= tallest(heights, upto),
    decreases upto,
{
    if i < upto - 1 {
        tallest_bounds(heights, upto - 1, i);
    }
}

/// A graph as it comes from the panels: every vertex stands for itself and belongs
/// to its panel.
pub open spec fn fresh(graph: Graph, polygons: Seq<Vec<Vec<Point>>>) -> bool {
    &&& graph.points() == panel_points(polygons, polygons.len() as int)
    &&& graph.rings().len() == polygons.len()
    &&& forall|p: int|
        0 <= p < polygons.len() ==> ring_ids(
            (#[trigger] graph.rings()[p])@,
            polygons[p]@,
            panel_points(polygons, p).len() as int,
        )
    &&& forall|i: int|
        0 <= i < graph.points().len() ==> (#[trigger] graph.roots()[i]) == i && graph.origins()[i]@
            == seq![graph.points()[i]] && graph.owners()[i]@.len() == 1
    &&& forall|p: int, r: int, k: int|
        0 <= p < graph.rings().len() && 0 <= r < graph.rings()[p]@.len() && 0 <= k
            < graph.rings()[p]@[r]@.len() ==> graph.owners()[(#[trigger] graph.rings()[p]@[r]@[k]) as int]@[0]
            == p
}

/// The rings of a panel are numbered on from `first`.
pub open spec fn ring_ids(rings: Seq<Vec<usize>>, polygon: Seq<Vec<Point>>, first: int) -> bool {
    &&& rings.len() == polygon.len()
    &&& forall|r: int|
        0 <= r < polygon.len() ==> numbered(
            (#[trigger] rings[r])@,
            polygon[r]@.len() as int,
            first + ring_points(polygon, r).len(),
        )
}

pub open spec fn numbered(ids: Seq<usize>, count: int, first: int) -> bool {
    ids.len() == count && forall|k: int| 0 <= k < count ==> #[trigger] ids[k] == first + k
}

impl Graph {
    /// Takes the boundary of every panel.
    #[verifier::rlimit(60)]
    #[verifier::loop_isolation(false)]
    pub fn new(polygons: &Vec<Vec<Vec<Point>>>) -> (graph: Graph)
        ensures
            graph.well_formed(),
            fresh(graph, polygons@),
    {
        let mut points: Vec<Point> = Vec::new();
        let mut origins: Vec<Vec<Point>> = Vec::new();
        let mut owners: Vec<Vec<usize>> = Vec::new();
        let mut parent: Vec<usize> = Vec::new();
        let mut rings: Vec<Vec<Vec<usize>>> = Vec::new();
        let ghost mut panel_of: Seq<int> = Seq::empty();
        let mut p: usize = 0;
        while p < polygons.len()
            invariant
                p <= polygons@.len(),
                points@ == panel_points(polygons@, p as int),
                origins@.len() == points@.len(),
                owners@.len() == points@.len(),
                parent@.len() == points@.len(),
                panel_of.len() == points@.len(),
                rings@.len() == p,
                forall|i: int| 0 <= i < points@.len() ==> #[trigger] parent@[i] == i,
                forall|i: int| 0 <= i < points@.len() ==> (#[trigger] origins@[i])@ == seq![points@[i]],
                forall|i: int| 0 <= i < points@.len() ==> (#[trigger] owners@[i])@.len() == 1 && owners@[i]@[0] == panel_of[i],
                forall|q: int| 0 <= q < p ==> ring_ids((#[trigger] rings@[q])@, polygons@[q]@, panel_points(polygons@, q).len() as int),
                forall|q: int, r: int, k: int|
                    0 <= q < p && 0 <= r < rings@[q]@.len() && 0 <= k < rings@[q]@[r]@.len() ==> #[trigger] rings@[q]@[r]@[k] < points@.len() && panel_of[rings@[q]@[r]@[k] as int] == q,
            decreases polygons@.len() - p,
        {
            let polygon = &polygons[p];
            let ghost first = points@.len() as int;
            let mut own: Vec<Vec<usize>> = Vec::new();
            let mut r: usize = 0;
            while r < polygon.len()
                invariant
                    r <= polygon@.len(),
                    first == panel_points(polygons@, p as int).len(),
                    points@ =~= panel_points(polygons@, p as int) + ring_points(polygon@, r as int),
                    origins@.len() == points@.len(),
                    owners@.len() == points@.len(),
                    parent@.len() == points@.len(),
                    panel_of.len() == points@.len(),
                    own@.len() == r,
                    forall|i: int| 0 <= i < points@.len() ==> #[trigger] parent@[i] == i,
                    forall|i: int| 0 <= i < points@.len() ==> (#[trigger] origins@[i])@ == seq![points@[i]],
                    forall|i: int| 0 <= i < points@.len() ==> (#[trigger] owners@[i])@.len() == 1 && owners@[i]@[0] == panel_of[i],
                    forall|s: int| 0 <= s < r ==> numbered((#[trigger] own@[s])@, polygon@[s]@.len() as int, first + ring_points(polygon@, s).len()),
                    forall|s: int, k: int| 0 <= s < r && 0 <= k < own@[s]@.len() ==> #[trigger] own@[s]@[k] < points@.len() && panel_of[own@[s]@[k] as int] == p,
                    forall|q: int, s: int, k: int|
                        0 <= q < p && 0 <= s < rings@[q]@.len() && 0 <= k < rings@[q]@[s]@.len() ==> #[trigger] rings@[q]@[s]@[k] < points@.len() && panel_of[rings@[q]@[s]@[k] as int] == q,
                decreases polygon@.len() - r,
            {
                let ring = &polygon[r];
                let ghost begin = points@.len() as int;
                let ghost earlier = points@;
                let mut ids: Vec<usize> = Vec::new();
                let mut k: usize = 0;
                while k < ring.len()
                    invariant
                        k <= ring@.len(),
                        points@ =~= earlier + ring@.take(k as int),
                        origins@.len() == points@.len(),
                        owners@.len() == points@.len(),
                        parent@.len() == points@.len(),
                        panel_of.len() == points@.len(),
                        ids@.len() == k,
                        forall|j: int| 0 <= j < k ==> #[trigger] ids@[j] == begin + j && panel_of[begin + j] == p,
                        forall|i: int| 0 <= i < points@.len() ==> #[trigger] parent@[i] == i,
                        forall|i: int| 0 <= i < points@.len() ==> (#[trigger] origins@[i])@ == seq![points@[i]],
                        forall|i: int| 0 <= i < points@.len() ==> (#[trigger] owners@[i])@.len() == 1 && owners@[i]@[0] == panel_of[i],
                        forall|s: int, j: int| 0 <= s < r && 0 <= j < own@[s]@.len() ==> #[trigger] own@[s]@[j] < points@.len() && panel_of[own@[s]@[j] as int] == p,
                        forall|q: int, s: int, j: int|
                            0 <= q < p && 0 <= s < rings@[q]@.len() && 0 <= j < rings@[q]@[s]@.len() ==> #[trigger] rings@[q]@[s]@[j] < points@.len() && panel_of[rings@[q]@[s]@[j] as int] == q,
                    decreases ring@.len() - k,
                {
                    let id: usize = points.len();
                    points.push(ring[k]);
                    let mut origin: Vec<Point> = Vec::new();
                    origin.push(ring[k]);
                    assert(origin@ =~= seq![ring@[k as int]]);
                    origins.push(origin);
                    let mut owner: Vec<usize> = Vec::new();
                    owner.push(p);
                    owners.push(owner);
                    parent.push(id);
                    ids.push(id);
                    proof {
                        panel_of = panel_of.push(p as int);
                    }
                    k += 1;
                }
                assert(ring@.take(k as int) =~= ring@);
                assert(numbered(ids@, ring@.len() as int, begin));
                own.push(ids);
                r += 1;
            }
            rings.push(own);
            assert(ring_ids(own@, polygon@, first));
            p += 1;
        }
        let ghost roots = Seq::new(points@.len(), |i: int| i as usize);
        let ghost heights = Seq::new(points@.len(), |i: int| 0nat);
        let graph = Graph { points, origins, owners, parent, rings, roots: Ghost(roots), heights: Ghost(heights) };
        proof {
            assert forall|i: int| 0 <= i < points@.len() implies #[trigger] heights[i] <= tallest(heights, heights.len() as int) by {
                tallest_bounds(heights, heights.len() as int, i);
            }
            assert(graph.rings_known());
            assert(graph.well_formed());
        }
        graph
    }

    /// The panels that a merge of two vertices would concern, where it may be
    /// considered: they are two, and no panel has both.
    pub fn merge_owners(&self, a: usize, b: usize) -> (r: Option<Vec<usize>>)
        requires
            self.well_formed(),
            a < self.points().len(),
            b < self.points().len(),
        ensures
            ({
                let x = self.roots()[a as int] as int;
                let y = self.roots()[b as int] as int;
                match r {
                    Some(list) => {
                        &&& x != y
                        &&& disjoint(self.owners()[x]@, self.owners()[y]@)
                        &&& lists_distinct_indices(list@, self.owners()[x]@ + self.owners()[y]@)
                    },
                    None => x == y || !disjoint(self.owners()[x]@, self.owners()[y]@),
                }
            }),
    {
        let x = self.root(a);
        let y = self.root(b);
        if x == y || !are_disjoint(&self.owners[x], &self.owners[y]) {
            return None;
        }
        Some(united(&self.owners[x], &self.owners[y]))
    }

    /// Merges two vertices where that is allowed.
    #[verifier::rlimit(60)]
    pub fn merge(&mut self, a: usize, b: usize, measure: &MergeMeasure) -> (r: bool)
        requires
            old(self).well_formed(),
            a < old(self).points().len(),
            b < old(self).points().len(),
        ensures
            final(self).well_formed(),
            ({
                let x = old(self).roots()[a as int] as int;
                let y = old(self).roots()[b as int] as int;
                &&& r == (x != y && disjoint(old(self).owners()[x]@, old(self).owners()[y]@) && mergeable(
                    *measure,
                ))
                &&& !r ==> *final(self) == *old(self)
                &&& r ==> merged(*old(self), *final(self), x, y, measure.point->0)
            }),
    {
        let x = self.root(a);
        let y = self.root(b);
        if x == y || !are_disjoint(&self.owners[x], &self.owners[y]) {
            return false;
        }
        let point = match measure.point {
            Some(point) => point,
            None => {
                return false;
            },
        };
        if !is_finite_point(&point) || !are_at_most(&measure.spreads, &measure.limit) || !measure.valid {
            return false;
        }
        let ghost n = self.points@.len() as int;
        proof {
            root_is_own_root(*self, a as int);
            root_is_own_root(*self, b as int);
        }
        let joined = united(&self.owners[x], &self.owners[y]);
        let lost = copy_points(&self.origins[y]);
        let mut origin = self.origins.remove(x);
        append_points(&mut origin, &lost);
        self.origins.insert(x, origin);
        self.owners.set(x, joined);
        self.points.set(x, point);
        self.parent.set(y, x);
        proof {
            let before = old(self).roots@;
            self.roots@ = Seq::new(before.len(), |i: int| if before[i] == y { x } else { before[i] });
            let base = old(self).heights@;
            let raised: nat = if base[x as int] > base[y as int] {
                base[x as int]
            } else {
                base[y as int] + 1
            };
            self.heights@ = base.update(x as int, raised);
            assert forall|i: int| 0 <= i < n implies #[trigger] self.heights@[i] <= tallest(self.heights@, self.heights@.len() as int) by {
                tallest_bounds(self.heights@, self.heights@.len() as int, i);
            }
            assert forall|i: int| 0 <= i < n implies #[trigger] self.roots@[i] < n && self.roots@[i] == self.roots@[self.parent@[i] as int] by {
                assert(before[i] < n);
                assert(old(self).parent@[i] < n);
                assert(before[i] == before[old(self).parent@[i] as int]);
                assert(before[x as int] == x && before[y as int] == y);
            }
            assert forall|i: int| 0 <= i < n implies ((#[trigger] self.parent@[i]) == i <==> self.roots@[i] == i) by {
                assert(old(self).parent@[i] == i <==> before[i] == i);
                assert(before[y as int] == y);
            }
            assert forall|i: int| 0 <= i < n && (#[trigger] self.parent@[i]) != i implies self.heights@[i] < self.heights@[self.parent@[i] as int] by {
                assert(old(self).parent@[x as int] == x);
                if i != y {
                    assert(old(self).parent@[i] != i);
                    assert(base[i] < base[old(self).parent@[i] as int]);
                }
            }
            assert forall|i: int| 0 <= i < n implies #[trigger] self.parent@[i] < n by {
                assert(old(self).parent@[i] < n);
            }
            assert(self.rings_known()) by {
                assert(old(self).rings_known());
                assert forall|p: int, r: int, k: int|
                    0 <= p < self.rings@.len() && 0 <= r < self.rings@[p]@.len() && 0 <= k < self.rings@[p]@[r]@.len() implies #[trigger] self.rings@[p]@[r]@[k] < self.points@.len() by {
                    assert(old(self).rings@[p]@[r]@[k] < old(self).points@.len());
                }
            }
            assert(self.well_formed());
            assert(self.origins@[x as int]@ =~= old(self).origins@[x as int]@ + old(self).origins@[y as int]@);
            assert(self.points@ =~= old(self).points@.update(x as int, point));
            assert(merged(*old(self), *self, x as int, y as int, point));
        }
        true
    }

    /// Whether a vertex may be drawn onto an edge of a panel at all: it is no end of
    /// the edge and not yet on that panel.
    pub fn may_snap(&self, vertex: usize, a: usize, b: usize, target: usize) -> (r: bool)
        requires
            self.well_formed(),
            vertex < self.points().len(),
            a < self.points().len(),
            b < self.points().len(),
        ensures
            r == snap_allowed(*self, vertex, a, b, target),
    {
        let v = self.root(vertex);
        let x = self.root(a);
        let y = self.root(b);
        v != x && v != y && !lists_index(&self.owners[v], target)
    }

    /// Draws a vertex onto an edge of another panel where that is allowed.
    #[verifier::rlimit(60)]
    pub fn snap_to_edge(&mut self, vertex: usize, a: usize, b: usize, target: usize, measure: &SnapMeasure) -> (r: bool)
        requires
            old(self).well_formed(),
            vertex < old(self).points().len(),
            a < old(self).points().len(),
            b < old(self).points().len(),
        ensures
            final(self).well_formed(),
            r == (snap_allowed(*old(self), vertex, a, b, target) && snappable(*measure)),
            !r ==> *final(self) == *old(self),
            r ==> snapped(
                *old(self),
                *final(self),
                old(self).roots()[vertex as int] as int,
                old(self).roots()[a as int] as int,
                old(self).roots()[b as int] as int,
                target,
                *measure,
            ),
    {
        if !self.may_snap(vertex, a, b, target) || !is_snappable(measure) {
            return false;
        }
        let v = self.root(vertex);
        let x = self.root(a);
        let y = self.root(b);
        match measure.ends {
            Some(ends) => {
                self.points.set(x, ends[0]);
                self.points.set(y, ends[1]);
            },
            None => {},
        }
        match measure.point {
            Some(point) => {
                self.points.set(v, point);
            },
            None => {},
        }
        let mut single: Vec<usize> = Vec::new();
        single.push(target);
        let joined = united(&self.owners[v], &single);
        assert(single@ =~= seq![target]);
        self.owners.set(v, joined);
        proof {
            assert(self.rings_known()) by {
                assert(old(self).rings_known());
                assert forall|p: int, r: int, k: int|
                    0 <= p < self.rings@.len() && 0 <= r < self.rings@[p]@.len() && 0 <= k < self.rings@[p]@[r]@.len() implies #[trigger] self.rings@[p]@[r]@[k] < self.points@.len() by {
                    assert(old(self).rings@[p]@[r]@[k] < old(self).points@.len());
                }
            }
            assert(self.bound() == old(self).bound());
            assert forall|i: int| 0 <= i < self.points@.len() implies #[trigger] self.heights@[i] <= self.bound() by {
                assert(old(self).heights@[i] <= old(self).bound());
            }
            assert forall|i: int| 0 <= i < self.points@.len() implies #[trigger] self.parent@[i] < self.points@.len() by {
                assert(old(self).parent@[i] < old(self).points@.len());
            }
            assert forall|i: int| 0 <= i < self.points@.len() implies #[trigger] self.roots@[i] < self.points@.len() && self.roots@[i] == self.roots@[self.parent@[i] as int] by {
                assert(old(self).roots@[i] < old(self).points@.len());
            }
            assert(self.well_formed());
        }
        true
    }

    /// Puts new rings in the place of the old ones.
    pub fn replace_rings(&mut self, rings: Vec<Vec<Vec<usize>>>)
        requires
            old(self).well_formed(),
            forall|p: int, r: int, k: int|
                0 <= p < rings@.len() && 0 <= r < rings@[p]@.len() && 0 <= k < rings@[p]@[r]@.len()
                    ==> #[trigger] rings@[p]@[r]@[k] < old(self).points().len(),
        ensures
            final(self).well_formed(),
            final(self).rings() == rings@,
            final(self).points() == old(self).points(),
            final(self).owners() == old(self).owners(),
            final(self).origins() == old(self).origins(),
            final(self).roots() == old(self).roots(),
    {
        self.rings = rings;
        proof {
            assert(self.bound() == old(self).bound());
            assert(self.rings_known());
            assert forall|i: int| 0 <= i < self.points@.len() implies #[trigger] self.heights@[i] <= self.bound() by {
                assert(old(self).heights@[i] <= old(self).bound());
            }
            assert(self.well_formed());
        }
    }

    /// The edges of all rings between the vertices that stand for their ends.
    #[verifier::loop_isolation(false)]
    pub fn edges(&self) -> (r: Vec<PanelEdge>)
        requires
            self.well_formed(),
        ensures
            r@ == edges_upto(self.rings(), self.roots(), self.rings().len() as int),
    {
        let mut r: Vec<PanelEdge> = Vec::new();
        let mut p: usize = 0;
        while p < self.rings.len()
            invariant
                p <= self.rings@.len(),
                r@ == edges_upto(self.rings@, self.roots@, p as int),
            decreases self.rings@.len() - p,
        {
            let rings = &self.rings[p];
            let ghost start = r@;
            let mut g: usize = 0;
            assert(r@ =~= start + panel_edges(rings@, self.roots@, p, 0));
            while g < rings.len()
                invariant
                    p < self.rings@.len(),
                    *rings == self.rings@[p as int],
                    g <= rings@.len(),
                    r@ == start + panel_edges(rings@, self.roots@, p, g as int),
                decreases rings@.len() - g,
            {
                let ring = &rings[g];
                let ghost inner = r@;
                let mut k: usize = 0;
                assert(r@ =~= inner + ring_edges(ring@, self.roots@, p, 0));
                while k < ring.len()
                    invariant
                        p < self.rings@.len(),
                        g < rings@.len(),
                        *rings == self.rings@[p as int],
                        *ring == rings@[g as int],
                        k <= ring@.len(),
                        r@ == inner + ring_edges(ring@, self.roots@, p, k as int),
                    decreases ring@.len() - k,
                {
                    let next: usize = if k + 1 < ring.len() {
                        k + 1
                    } else {
                        0
                    };
                    assert(self.rings@[p as int]@[g as int]@[k as int] < self.points@.len());
                    assert(self.rings@[p as int]@[g as int]@[next as int] < self.points@.len());
                    let edge = PanelEdge { panel: p, a: self.root(ring[k]), b: self.root(ring[next]) };
                    r.push(edge);
                    assert(r@ =~= inner + ring_edges(ring@, self.roots@, p, k + 1));
                    k += 1;
                }
                assert(r@ =~= start + panel_edges(rings@, self.roots@, p, g + 1));
                g += 1;
            }
            p += 1;
        }
        r
    }
}

/// An edge of a panel between two vertices.
#[derive(Debug, Clone, Copy, PartialEq, Eq, Structural)]
pub struct PanelEdge {
    pub panel: usize,
    pub a: usize,
    pub b: usize,
}

pub open spec fn next_of(ring: Seq<usize>, k: int) -> usize {
    if k + 1 < ring.len() {
        ring[k + 1]
    } else {
        ring[0]
    }
}

pub open spec fn ring_edges(ring: Seq<usize>, roots: Seq<usize>, panel: usize, upto: int) -> Seq<PanelEdge>
    decreases upto,
{
    if upto <= 0 {
        Seq::empty()
    } else {
        ring_edges(ring, roots, panel, upto - 1).push(
            PanelEdge {
                panel,
                a: roots[ring[upto - 1] as int],
                b: roots[next_of(ring, upto - 1) as int],
            },
        )
    }
}

pub open spec fn panel_edges(rings: Seq<Vec<usize>>, roots: Seq<usize>, panel: usize, upto: int) -> Seq<PanelEdge>
    decreases upto,
{
    if upto <= 0 {
        Seq::empty()
    } else {
        panel_edges(rings, roots, panel, upto - 1) + ring_edges(
            rings[upto - 1]@,
            roots,
            panel,
            rings[upto - 1]@.len() as int,
        )
    }
}

pub open spec fn edges_upto(rings: Seq<Vec<Vec<usize>>>, roots: Seq<usize>, upto: int) -> Seq<PanelEdge>
    decreases upto,
{
    if upto <= 0 {
        Seq::empty()
    } else {
        edges_upto(rings, roots, upto - 1) + panel_edges(
            rings[upto - 1]@,
            roots,
            (upto - 1) as usize,
            rings[upto - 1]@.len() as int,
        )
    }
}

proof fn root_is_own_root(graph: Graph, i: int)
    requires
        graph.well_formed(),
        0 <= i < graph.points().len(),
    ensures
        graph.roots()[graph.roots()[i] as int] == graph.roots()[i],
    decreases graph.bound() - graph.heights@[i],
{
    assert(graph.parent@[i] == i <==> graph.roots@[i] == i);
    assert(graph.roots@[i] < graph.points@.len());
    if graph.parent@[i] != i {
        assert(graph.parent@[i] < graph.points@.len());
        assert(graph.heights@[graph.parent@[i] as int] <= graph.bound());
        assert(graph.heights@[i] <= graph.bound());
        root_is_own_root(graph, graph.parent@[i] as int);
        assert(graph.roots@[i] == graph.roots@[graph.parent@[i] as int]);
    }
}

fn copy_points(points: &Vec<Point>) -> (r: Vec<Point>)
    ensures
        r@ == points@,
{
    let mut r: Vec<Point> = Vec::new();
    let mut k: usize = 0;
    while k < points.len()
        invariant
            k <= points@.len(),
            r@ =~= points@.take(k as int),
        decreases points@.len() - k,
    {
        r.push(points[k]);
        k += 1;
    }
    assert(r@ =~= points@);
    r
}

fn append_points(target: &mut Vec<Point>, points: &Vec<Point>)
    ensures
        final(target)@ == old(target)@ + points@,
{
    let mut k: usize = 0;
    while k < points.len()
        invariant
            k <= points@.len(),
            target@ =~= old(target)@ + points@.take(k as int),
        decreases points@.len() - k,
    {
        target.push(points[k]);
        k += 1;
    }
    assert(target@ =~= old(target)@ + points@);
}

/// What a merge of the vertices that stand for `x` and `y` changes.
pub open spec fn merged(before: Graph, after: Graph, x: int, y: int, point: Point) -> bool {
    &&& after.points() == before.points().update(x, point)
    &&& after.rings() == before.rings()
    &&& after.roots().len() == before.roots().len()
    &&& forall|i: int|
        0 <= i < before.roots().len() ==> (#[trigger] after.roots()[i]) == if before.roots()[i] == y {
            x as usize
        } else {
            before.roots()[i]
        }
    &&& after.owners().len() == before.owners().len()
    &&& lists_distinct_indices(after.owners()[x]@, before.owners()[x]@ + before.owners()[y]@)
    &&& after.origins().len() == before.origins().len()
    &&& after.origins()[x]@ == before.origins()[x]@ + before.origins()[y]@
    &&& forall|i: int|
        0 <= i < before.owners().len() && i != x ==> (#[trigger] after.owners()[i]) == before.owners()[i]
    &&& forall|i: int|
        0 <= i < before.origins().len() && i != x ==> (#[trigger] after.origins()[i]) == before.origins()[i]
}

pub open spec fn snap_allowed(graph: Graph, vertex: usize, a: usize, b: usize, target: usize) -> bool {
    let v = graph.roots()[vertex as int];
    v != graph.roots()[a as int] && v != graph.roots()[b as int] && !graph.owners()[v as int]@.contains(target)
}

/// What a snap changes: the vertex, the ends of the edge where they must move, and
/// the panels of the vertex.
pub open spec fn snapped(
    before: Graph,
    after: Graph,
    v: int,
    x: int,
    y: int,
    target: usize,
    measure: SnapMeasure,
) -> bool {
    let moved = match measure.ends {
        Some(ends) => before.points().update(x, ends[0]).update(y, ends[1]),
        None => before.points(),
    };
    &&& after.points() == moved.update(v, measure.point->0)
    &&& after.rings() == before.rings()
    &&& after.roots() == before.roots()
    &&& after.origins() == before.origins()
    &&& after.owners().len() == before.owners().len()
    &&& lists_distinct_indices(after.owners()[v]@, before.owners()[v]@ + seq![target])
    &&& forall|i: int|
        0 <= i < before.owners().len() && i != v ==> (#[trigger] after.owners()[i]) == before.owners()[i]
}

/// Vertices that a merge does not concern keep their place and their root.
pub proof fn merge_is_local(before: Graph, after: Graph, x: int, y: int, point: Point, i: int)
    requires
        before.well_formed(),
        merged(before, after, x, y, point),
        0 <= x < before.points().len(),
        0 <= i < before.points().len(),
        i != x,
        before.roots()[i] != y,
    ensures
        after.points()[i] == before.points()[i],
        after.roots()[i] == before.roots()[i],
{
}

/// A vertex that stands for others stands for itself.
pub proof fn roots_are_settled(graph: Graph, i: int)
    requires
        graph.well_formed(),
        0 <= i < graph.points().len(),
    ensures
        graph.roots()[graph.roots()[i] as int] == graph.roots()[i],
{
    root_is_own_root(graph, i);
}

/// Where on an edge a vertex is nearest to, and how near.
pub struct EdgeNearness {
    /// From zero at the start of the edge to one at its end.
    pub t: Scalar,
    pub distance: Scalar,
}

/// The vertex is nearest to the inside of the edge, not to one of its ends.
pub open spec fn beside(near: EdgeNearness) -> bool {
    Scalar::spec_zero().lt(near.t) && near.t.lt(Scalar::spec_one())
}

fn is_beside(near: &EdgeNearness) -> (r: bool)
    ensures
        r == beside(*near),
{
    Scalar::zero().less(&near.t) && near.t.less(&Scalar::one())
}

/// Whether a vertex lies on an edge, away from its ends.
pub fn is_cut(near: &EdgeNearness, coincidence: &Scalar) -> (r: bool)
    ensures
        r == (beside(*near) && near.distance.lt(*coincidence)),
{
    is_beside(near) && near.distance.less(coincidence)
}

fn same_owners(a: &Vec<usize>, b: &Vec<usize>) -> (r: bool)
    ensures
        r == (a@ == b@),
{
    if a.len() != b.len() {
        return false;
    }
    let mut k: usize = 0;
    while k < a.len()
        invariant
            k <= a@.len(),
            a@.len() == b@.len(),
            a@.take(k as int) =~= b@.take(k as int),
        decreases a@.len() - k,
    {
        if a[k] != b[k] {
            return false;
        }
        assert(a@.take(k + 1) =~= a@.take(k as int).push(a@[k as int]));
        assert(b@.take(k + 1) =~= b@.take(k as int).push(b@[k as int]));
        k += 1;
    }
    assert(a@.take(k as int) =~= a@ && b@.take(k as int) =~= b@);
    true
}

impl Graph {
    /// Whether a merge of two vertices is worth a trial: they are near and bound
    /// different panels.
    pub fn is_merge_candidate(&self, a: usize, b: usize, distance: &Scalar, tolerance: &Scalar) -> (r: bool)
        requires
            self.well_formed(),
            a < self.points().len(),
            b < self.points().len(),
        ensures
            r == (distance.le(*tolerance) && self.owners()[a as int]@ != self.owners()[b as int]@),
    {
        distance.at_most(tolerance) && !same_owners(&self.owners[a], &self.owners[b])
    }

    /// Whether a vertex is worth a trial to draw it onto an edge: it stands for itself,
    /// is on another panel and near the inside of the edge.
    pub fn is_snap_candidate(&self, vertex: usize, edge: &PanelEdge, near: &EdgeNearness, tolerance: &Scalar) -> (r: bool)
        requires
            self.well_formed(),
            vertex < self.points().len(),
        ensures
            r == (apart(*self, vertex, *edge) && beside(*near) && near.distance.le(*tolerance)),
    {
        self.is_apart(vertex, edge) && is_beside(near) && near.distance.at_most(tolerance)
    }

    /// Whether a vertex is still near an edge of another panel without being on it.
    pub fn is_unresolved(
        &self,
        vertex: usize,
        edge: &PanelEdge,
        near: &EdgeNearness,
        coincidence: &Scalar,
        tolerance: &Scalar,
    ) -> (r: bool)
        requires
            self.well_formed(),
            vertex < self.points().len(),
        ensures
            r == (apart(*self, vertex, *edge) && beside(*near) && coincidence.lt(near.distance) && near.distance.lt(
                *tolerance,
            )),
    {
        self.is_apart(vertex, edge) && is_beside(near) && coincidence.less(&near.distance) && near.distance.less(
            tolerance,
        )
    }

    fn is_apart(&self, vertex: usize, edge: &PanelEdge) -> (r: bool)
        requires
            self.well_formed(),
            vertex < self.points().len(),
        ensures
            r == apart(*self, vertex, *edge),
    {
        self.root(vertex) == vertex && vertex != edge.a && vertex != edge.b && !lists_index(
            &self.owners[vertex],
            edge.panel,
        )
    }
}

/// The vertex stands for itself, is no end of the edge and is not on the panel of the
/// edge.
pub open spec fn apart(graph: Graph, vertex: usize, edge: PanelEdge) -> bool {
    &&& graph.roots()[vertex as int] == vertex
    &&& vertex != edge.a
    &&& vertex != edge.b
    &&& !graph.owners()[vertex as int]@.contains(edge.panel)
}

pub open spec fn distance_keys(keys: Seq<i128>, distances: Seq<Scalar>) -> bool {
    &&& keys.len() == distances.len()
    &&& forall|k: int| 0 <= k < distances.len() ==> #[trigger] keys[k] == distances[k].total_rank()
}

/// Nearest first, equally near ones in their given order.
pub open spec fn by_distance(order: Seq<usize>, distances: Seq<Scalar>) -> bool {
    exists|keys: Seq<i128>| #[trigger] distance_keys(keys, distances) && stable_order(keys, order)
}

pub fn order_by_distance(distances: &Vec<Scalar>) -> (order: Vec<usize>)
    ensures
        by_distance(order@, distances@),
{
    let mut keys: Vec<i128> = Vec::new();
    let mut k: usize = 0;
    while k < distances.len()
        invariant
            k <= distances@.len(),
            keys@.len() == k,
            forall|m: int| 0 <= m < k ==> #[trigger] keys@[m] == distances@[m].total_rank(),
        decreases distances@.len() - k,
    {
        keys.push(distances[k].total_key() as i128);
        k += 1;
    }
    let order = sorted_indices(&keys);
    assert(distance_keys(keys@, distances@));
    order
}

/// What is measured of vertices that lie on an edge, in their order along it.
#[derive(Debug)]
pub struct EdgeCut {
    pub vertex: usize,
    pub from_start: Scalar,
    pub to_end: Scalar,
    /// Distances to the cuts before it.
    pub to_earlier: Vec<Scalar>,
}

/// Distance of a cut to the last one taken, or to the start of the edge.
pub open spec fn gap_before(cuts: Seq<EdgeCut>, taken: Seq<usize>, k: int) -> Scalar {
    if taken.len() == 0 {
        cuts[k].from_start
    } else {
        cuts[k].to_earlier@[taken.last() as int]
    }
}

pub open spec fn spaced(cuts: Seq<EdgeCut>, shortest: Scalar, upto: int) -> Seq<usize>
    decreases upto,
{
    if upto <= 0 {
        Seq::empty()
    } else {
        let taken = spaced(cuts, shortest, upto - 1);
        if shortest.le(gap_before(cuts, taken, upto - 1)) && shortest.le(cuts[upto - 1].to_end) {
            taken.push((upto - 1) as usize)
        } else {
            taken
        }
    }
}

proof fn spaced_before(cuts: Seq<EdgeCut>, shortest: Scalar, upto: int, m: int)
    requires
        0 <= upto <= usize::MAX,
        0 <= m < spaced(cuts, shortest, upto).len(),
    ensures
        spaced(cuts, shortest, upto)[m] < upto,
    decreases upto,
{
    if upto > 0 {
        let taken = spaced(cuts, shortest, upto - 1);
        if m < taken.len() {
            spaced_before(cuts, shortest, upto - 1, m);
        }
    }
}

/// The cuts of an edge that leave no short piece.
pub fn take_spaced(cuts: &Vec<EdgeCut>, shortest: &Scalar) -> (r: Vec<usize>)
    requires
        forall|k: int| 0 <= k < cuts@.len() ==> (#[trigger] cuts@[k]).to_earlier@.len() == k,
    ensures
        r@ == spaced(cuts@, *shortest, cuts@.len() as int),
{
    let mut r: Vec<usize> = Vec::new();
    let mut k: usize = 0;
    while k < cuts.len()
        invariant
            forall|m: int| 0 <= m < cuts@.len() ==> (#[trigger] cuts@[m]).to_earlier@.len() == m,
            k <= cuts@.len(),
            r@ == spaced(cuts@, *shortest, k as int),
        decreases cuts@.len() - k,
    {
        let gap: Scalar = if r.len() == 0 {
            cuts[k].from_start
        } else {
            proof {
                spaced_before(cuts@, *shortest, k as int, r@.len() - 1);
                assert(cuts@[k as int].to_earlier@.len() == k);
            }
            cuts[k].to_earlier[r[r.len() - 1]]
        };
        if shortest.at_most(&gap) && shortest.at_most(&cuts[k].to_end) {
            r.push(k);
        }
        k += 1;
    }
    r
}

/// Two panels that have an edge in common.
pub open spec fn share_edge(edges: Seq<PanelEdge>, p: usize, q: usize) -> bool {
    exists|i: int, j: int|
        0 <= i < edges.len() && 0 <= j < edges.len() && (#[trigger] edges[i]).panel == p && (
        #[trigger] edges[j]).panel == q && key_of(edges[i].a, edges[i].b) == key_of(edges[j].a, edges[j].b)
}

pub open spec fn neighbours_of(list: Seq<usize>, edges: Seq<PanelEdge>, p: usize) -> bool {
    &&& ascending_indices(list)
    &&& forall|q: usize| #[trigger] list.contains(q) <==> q != p && share_edge(edges, p, q)
}

#[verifier::loop_isolation(false)]
fn neighbour_list(edges: &Vec<PanelEdge>, p: usize) -> (r: Vec<usize>)
    ensures
        neighbours_of(r@, edges@, p),
{
    let mut all: Vec<usize> = Vec::new();
    let mut i: usize = 0;
    while i < edges.len()
        invariant
            i <= edges@.len(),
            forall|m: int| 0 <= m < all@.len() ==> #[trigger] all@[m] != p && share_edge(edges@, p, all@[m]),
            forall|a: int, b: int|
                0 <= a < i && 0 <= b < edges@.len() && (#[trigger] edges@[a]).panel == p && (#[trigger] edges@[b]).panel != p && key_of(edges@[a].a, edges@[a].b) == key_of(edges@[b].a, edges@[b].b) ==> all@.contains(edges@[b].panel),
        decreases edges@.len() - i,
    {
        let ghost start = all@;
        if edges[i].panel == p {
            let own: Edge = key(edges[i].a, edges[i].b);
            let mut j: usize = 0;
            while j < edges.len()
                invariant
                    i < edges@.len(),
                    edges@[i as int].panel == p,
                    own == key_of(edges@[i as int].a, edges@[i as int].b),
                    j <= edges@.len(),
                    forall|m: int| 0 <= m < all@.len() ==> #[trigger] all@[m] != p && share_edge(edges@, p, all@[m]),
                    forall|x: usize| start.contains(x) ==> #[trigger] all@.contains(x),
                    forall|b: int|
                        0 <= b < j && (#[trigger] edges@[b]).panel != p && own == key_of(edges@[b].a, edges@[b].b) ==> all@.contains(edges@[b].panel),
                decreases edges@.len() - j,
            {
                let other: Edge = key(edges[j].a, edges[j].b);
                let ghost before = all@;
                if edges[j].panel != p && same_edge(&own, &other) {
                    all.push(edges[j].panel);
                    proof {
                        assert(all@[before.len() as int] == edges@[j as int].panel);
                        assert(edges@[i as int].panel == p && edges@[j as int].panel == edges@[j as int].panel);
                        assert(share_edge(edges@, p, edges@[j as int].panel));
                    }
                }
                proof {
                    assert forall|x: usize| before.contains(x) implies #[trigger] all@.contains(x) by {
                        let m = choose|m: int| 0 <= m < before.len() && before[m] == x;
                        assert(all@[m] == x);
                    }
                    assert forall|m: int| 0 <= m < all@.len() implies #[trigger] all@[m] != p && share_edge(edges@, p, all@[m]) by {
                        if m < before.len() {
                            assert(all@[m] == before[m]);
                        }
                    }
                }
                j += 1;
            }
        }
        i += 1;
    }
    let ghost listed = all@;
    let r = unique_indices(all);
    assert forall|q: usize| #[trigger] r@.contains(q) <==> q != p && share_edge(edges@, p, q) by {
        assert(r@.contains(q) <==> listed.contains(q));
        if listed.contains(q) {
            let m = choose|m: int| 0 <= m < listed.len() && listed[m] == q;
            assert(listed[m] != p);
        }
        if q != p && share_edge(edges@, p, q) {
            let (a, b) = choose|a: int, b: int|
                0 <= a < edges@.len() && 0 <= b < edges@.len() && (#[trigger] edges@[a]).panel == p && (#[trigger] edges@[b]).panel == q && key_of(edges@[a].a, edges@[a].b) == key_of(edges@[b].a, edges@[b].b);
            assert(listed.contains(edges@[b].panel));
        }
    }
    r
}

/// The panels that each panel has an edge in common with.
pub fn connections(edges: &Vec<PanelEdge>, panels: usize) -> (r: Vec<Vec<usize>>)
    ensures
        r@.len() == panels,
        forall|p: int| 0 <= p < panels ==> neighbours_of((#[trigger] r@[p])@, edges@, p as usize),
{
    let mut r: Vec<Vec<usize>> = Vec::new();
    let mut p: usize = 0;
    while p < panels
        invariant
            p <= panels,
            r@.len() == p,
            forall|q: int| 0 <= q < p ==> neighbours_of((#[trigger] r@[q])@, edges@, q as usize),
        decreases panels - p,
    {
        r.push(neighbour_list(edges, p));
        p += 1;
    }
    r
}

/// Connection goes both ways.
pub proof fn connection_is_mutual(edges: Seq<PanelEdge>, p: usize, q: usize)
    requires
        share_edge(edges, p, q),
    ensures
        share_edge(edges, q, p),
{
    let (i, j) = choose|i: int, j: int|
        0 <= i < edges.len() && 0 <= j < edges.len() && (#[trigger] edges[i]).panel == p && (#[trigger] edges[j]).panel == q && key_of(edges[i].a, edges[i].b) == key_of(edges[j].a, edges[j].b);
    assert(edges[j].panel == q && edges[i].panel == p);
}

pub open spec fn connection_total(lists: Seq<Vec<usize>>, upto: int) -> nat
    decreases upto,
{
    if upto <= 0 {
        0
    } else {
        connection_total(lists, upto - 1) + lists[upto - 1]@.len()
    }
}

proof fn connection_total_grows(lists: Seq<Vec<usize>>, a: int, b: int)
    requires
        0 <= a <= b,
    ensures
        connection_total(lists, a) <= connection_total(lists, b),
    decreases b - a,
{
    if a < b {
        connection_total_grows(lists, a, b - 1);
    }
}

/// The number of pairs of connected panels.
pub fn count_pairs(lists: &Vec<Vec<usize>>) -> (r: usize)
    requires
        connection_total(lists@, lists@.len() as int) <= usize::MAX,
    ensures
        r == connection_total(lists@, lists@.len() as int) / 2,
{
    let mut total: usize = 0;
    let mut k: usize = 0;
    while k < lists.len()
        invariant
            k <= lists@.len(),
            connection_total(lists@, lists@.len() as int) <= usize::MAX,
            total == connection_total(lists@, k as int),
        decreases lists@.len() - k,
    {
        proof {
            connection_total_grows(lists@, k + 1, lists@.len() as int);
        }
        total += lists[k].len();
        k += 1;
    }
    total / 2
}

/// What is measured of a panel after a trial.
#[derive(Debug)]
pub struct PanelCheck {
    /// Distances of its points to its plane.
    pub residuals: Vec<Scalar>,
    /// Product of new and old area of each ring; a turned ring has none above zero.
    pub orientations: Vec<Scalar>,
    /// Length of each edge with room for rounding, and what it must reach.
    pub edges: Vec<[Scalar; 2]>,
    /// Its rings form a polygon with holes.
    pub rings_ordered: bool,
}

pub open spec fn panel_valid(check: PanelCheck, precision: Scalar) -> bool {
    &&& forall|k: int|
        0 <= k < check.residuals@.len() ==> !precision.lt(#[trigger] check.residuals@[k])
    &&& forall|k: int|
        0 <= k < check.orientations@.len() ==> !(#[trigger] check.orientations@[k]).le(Scalar::spec_zero())
    &&& forall|k: int|
        0 <= k < check.edges@.len() ==> !(#[trigger] check.edges@[k])[0].lt(check.edges@[k][1])
    &&& check.rings_ordered
}

pub fn is_panel_valid(check: &PanelCheck, precision: &Scalar) -> (r: bool)
    ensures
        r == panel_valid(*check, *precision),
{
    if !none_above(&check.residuals, precision) {
        return false;
    }
    let mut k: usize = 0;
    while k < check.orientations.len()
        invariant
            k <= check.orientations@.len(),
            forall|m: int| 0 <= m < k ==> !(#[trigger] check.orientations@[m]).le(Scalar::spec_zero()),
        decreases check.orientations@.len() - k,
    {
        if check.orientations[k].at_most(&Scalar::zero()) {
            assert(check.orientations@[k as int].le(Scalar::spec_zero()));
            return false;
        }
        k += 1;
    }
    let mut k: usize = 0;
    while k < check.edges.len()
        invariant
            k <= check.edges@.len(),
            forall|m: int| 0 <= m < k ==> !(#[trigger] check.edges@[m])[0].lt(check.edges@[m][1]),
        decreases check.edges@.len() - k,
    {
        let pair: [Scalar; 2] = check.edges[k];
        if pair[0].less(&pair[1]) {
            assert(check.edges@[k as int][0].lt(check.edges@[k as int][1]));
            return false;
        }
        k += 1;
    }
    check.rings_ordered
}

/// The area two panels have in common, before with room for rounding and now.
#[derive(Debug, Clone, Copy)]
pub struct Overlap {
    pub allowed: Scalar,
    pub now: Scalar,
}

pub open spec fn trial_valid(checks: Seq<PanelCheck>, overlaps: Seq<Overlap>, precision: Scalar) -> bool {
    &&& forall|k: int| 0 <= k < checks.len() ==> panel_valid(#[trigger] checks[k], precision)
    &&& forall|k: int| 0 <= k < overlaps.len() ==> !(#[trigger] overlaps[k]).allowed.lt(overlaps[k].now)
}

/// A local repair keeps every panel valid and brings no new overlap.
pub fn valid(checks: &Vec<PanelCheck>, overlaps: &Vec<Overlap>, precision: &Scalar) -> (r: bool)
    ensures
        r == trial_valid(checks@, overlaps@, *precision),
{
    let mut k: usize = 0;
    while k < checks.len()
        invariant
            k <= checks@.len(),
            forall|m: int| 0 <= m < k ==> panel_valid(#[trigger] checks@[m], *precision),
        decreases checks@.len() - k,
    {
        if !is_panel_valid(&checks[k], precision) {
            assert(!panel_valid(checks@[k as int], *precision));
            return false;
        }
        k += 1;
    }
    let mut k: usize = 0;
    while k < overlaps.len()
        invariant
            k <= overlaps@.len(),
            forall|m: int| 0 <= m < k ==> !(#[trigger] overlaps@[m]).allowed.lt(overlaps@[m].now),
        decreases overlaps@.len() - k,
    {
        if overlaps[k].allowed.less(&overlaps[k].now) {
            assert(overlaps@[k as int].allowed.lt(overlaps@[k as int].now));
            return false;
        }
        k += 1;
    }
    true
}

/// A merge is made only at a finite place, within the limit of every original point, and with
/// the panels valid; where all that holds it is made.
pub proof fn merges_stay_within_their_limit(measure: MergeMeasure)
    ensures
        mergeable(measure) ==> measure.valid && measure.point is Some && forall|d: int|
            0 <= d < 3 ==> (#[trigger] measure.point->0[d]).finite(),
        mergeable(measure) ==> forall|k: int| 0 <= k < measure.spreads@.len() ==> (#[trigger] measure.spreads@[k]).le(measure.limit),
        measure.valid && measure.point is Some && (forall|d: int| 0 <= d < 3 ==> (#[trigger] measure.point->0[d]).finite()) && (
        forall|k: int| 0 <= k < measure.spreads@.len() ==> (#[trigger] measure.spreads@[k]).le(measure.limit)) ==> mergeable(
            measure,
        ),
{
    if forall|d: int| 0 <= d < 3 ==> (#[trigger] measure.point->0[d]).finite() {
        assert(measure.point->0[0].finite() && measure.point->0[1].finite() && measure.point->0[2].finite());
    }
}

/// A place on an edge lies between its ends, not at one of them.
pub proof fn places_inside_an_edge(t: Scalar)
    requires
        !t.nan(),
    ensures
        inside_edge(t) <==> Scalar::spec_zero().lt(t) && t.lt(Scalar::spec_one()),
        !inside_edge(Scalar::spec_zero()) && !inside_edge(Scalar::spec_one()),
{
}

/// A vertex is drawn onto an edge only from near the inside of it, with no original point
/// moved beyond the limit and no short piece left, and with the panels valid.
pub proof fn snaps_stay_within_their_limit(measure: SnapMeasure)
    ensures
        snappable(measure) ==> {
            &&& measure.point is Some && measure.valid
            &&& !measure.t.le(Scalar::spec_zero()) && !Scalar::spec_one().le(measure.t)
            &&& !measure.tolerance.lt(measure.distance)
            &&& forall|k: int| 0 <= k < measure.spreads@.len() ==> (#[trigger] measure.spreads@[k]).le(measure.limit)
            &&& !measure.pieces[0].lt(measure.shortest) && !measure.pieces[1].lt(measure.shortest)
            &&& forall|k: int| 0 <= k < measure.residuals@.len() ==> !measure.precision.lt(#[trigger] measure.residuals@[k])
        },
        measure.point is Some && measure.valid && Scalar::spec_zero().lt(measure.t) && measure.t.lt(Scalar::spec_one())
            && measure.distance.le(measure.tolerance) && measure.shortest.le(measure.pieces[0]) && measure.shortest.le(
            measure.pieces[1],
        ) && (forall|k: int| 0 <= k < measure.spreads@.len() ==> (#[trigger] measure.spreads@[k]).le(measure.limit)) && (
        forall|k: int| 0 <= k < measure.residuals@.len() ==> (#[trigger] measure.residuals@[k]).le(measure.precision))
            ==> snappable(measure),
{
}

/// After a merge, what either vertex stood for has one root, at the merged place; it is on the
/// panels of both and remembers the original points of both.
pub proof fn merged_vertices_are_one(before: Graph, after: Graph, x: int, y: int, point: Point, i: int, j: int)
    requires
        before.well_formed(),
        after.well_formed(),
        merged(before, after, x, y, point),
        0 <= x < before.points().len(),
        0 <= y < before.points().len(),
        before.roots()[x] == x,
        before.roots()[y] == y,
        0 <= i < before.points().len(),
        0 <= j < before.points().len(),
        before.roots()[i] == x,
        before.roots()[j] == y,
    ensures
        after.roots()[i] == after.roots()[j],
        after.points()[after.roots()[i] as int] == point,
        forall|p: usize|
            before.owners()[x]@.contains(p) || before.owners()[y]@.contains(p) ==> #[trigger] after.owners()[after.roots()[i] as int]@.contains(
                p,
            ),
        after.origins()[after.roots()[i] as int]@.len() == before.origins()[x]@.len() + before.origins()[y]@.len(),
{
    assert(before.roots().len() == before.points().len());
    let joined = before.owners()[x]@ + before.owners()[y]@;
    assert forall|p: usize| before.owners()[x]@.contains(p) || before.owners()[y]@.contains(p) implies #[trigger] after.owners()[x]@.contains(
        p,
    ) by {
        if before.owners()[x]@.contains(p) {
            let k = choose|k: int| 0 <= k < before.owners()[x]@.len() && before.owners()[x]@[k] == p;
            assert(joined[k] == p);
        } else {
            let k = choose|k: int| 0 <= k < before.owners()[y]@.len() && before.owners()[y]@[k] == p;
            assert(joined[before.owners()[x]@.len() + k] == p);
        }
        assert(joined.contains(p));
    }
}

/// A vertex that was drawn onto an edge is at its new place and on the panel of the edge as
/// well as on its own. All others but the ends of the edge keep their places.
pub proof fn snapped_vertex_joins_the_panel(
    before: Graph,
    after: Graph,
    v: int,
    x: int,
    y: int,
    target: usize,
    measure: SnapMeasure,
    i: int,
)
    requires
        snapped(before, after, v, x, y, target, measure),
        0 <= v < before.points().len(),
        0 <= x < before.points().len(),
        0 <= y < before.points().len(),
        v != x,
        v != y,
        x != y,
        0 <= i < before.points().len(),
    ensures
        after.points()[v] == measure.point->0,
        after.owners()[v]@.contains(target),
        forall|p: usize| before.owners()[v]@.contains(p) ==> #[trigger] after.owners()[v]@.contains(p),
        i != v && i != x && i != y ==> after.points()[i] == before.points()[i],
        measure.ends is Some ==> after.points()[x] == measure.ends->0[0] && after.points()[y] == measure.ends->0[1],
        measure.ends is None ==> after.points()[x] == before.points()[x] && after.points()[y] == before.points()[y],
{
    let joined = before.owners()[v]@ + seq![target];
    assert(joined[before.owners()[v]@.len() as int] == target);
    assert(joined.contains(target));
    assert forall|p: usize| before.owners()[v]@.contains(p) implies #[trigger] after.owners()[v]@.contains(p) by {
        let k = choose|k: int| 0 <= k < before.owners()[v]@.len() && before.owners()[v]@[k] == p;
        assert(joined[k] == p);
        assert(joined.contains(p));
    }
}

proof fn ring_edges_at(ring: Seq<usize>, roots: Seq<usize>, panel: usize, upto: int)
    requires
        0 <= upto <= ring.len(),
    ensures
        ring_edges(ring, roots, panel, upto).len() == upto,
        forall|k: int|
            0 <= k < upto ==> #[trigger] ring_edges(ring, roots, panel, upto)[k] == (PanelEdge {
                panel,
                a: roots[ring[k] as int],
                b: roots[ring[if k + 1 < ring.len() { k + 1 } else { 0 }] as int],
            }),
    decreases upto,
{
    if upto > 0 {
        ring_edges_at(ring, roots, panel, upto - 1);
    }
}

/// Every side of every ring is listed, from the vertex at its place to the next one round the
/// ring, with its panel.
pub proof fn every_side_is_listed(rings: Seq<Vec<Vec<usize>>>, roots: Seq<usize>, p: int, r: int, k: int, upto: int)
    requires
        0 <= p < upto <= rings.len() <= usize::MAX,
        0 <= r < rings[p]@.len(),
        0 <= k < rings[p]@[r]@.len(),
    ensures
        ({
            let ring = rings[p]@[r]@;
            edges_upto(rings, roots, upto).contains(
                PanelEdge {
                    panel: p as usize,
                    a: roots[ring[k] as int],
                    b: roots[ring[if k + 1 < ring.len() { k + 1 } else { 0 }] as int],
                },
            )
        }),
    decreases upto,
{
    let ring = rings[p]@[r]@;
    let edge = PanelEdge {
        panel: p as usize,
        a: roots[ring[k] as int],
        b: roots[ring[if k + 1 < ring.len() { k + 1 } else { 0 }] as int],
    };
    let before = edges_upto(rings, roots, upto - 1);
    let all = edges_upto(rings, roots, upto);
    if p < upto - 1 {
        every_side_is_listed(rings, roots, p, r, k, upto - 1);
        let m = choose|m: int| 0 <= m < before.len() && before[m] == edge;
        assert(all[m] == edge);
    } else {
        let added = panel_edges(rings[p]@, roots, p as usize, rings[p]@.len() as int);
        side_of_panel(rings[p]@, roots, p as usize, r, k, rings[p]@.len() as int);
        let m = choose|m: int| 0 <= m < added.len() && added[m] == edge;
        assert(all[before.len() + m] == edge);
    }
}

proof fn side_of_panel(rings: Seq<Vec<usize>>, roots: Seq<usize>, panel: usize, r: int, k: int, upto: int)
    requires
        0 <= r < upto <= rings.len(),
        0 <= k < rings[r]@.len(),
    ensures
        ({
            let ring = rings[r]@;
            panel_edges(rings, roots, panel, upto).contains(
                PanelEdge {
                    panel,
                    a: roots[ring[k] as int],
                    b: roots[ring[if k + 1 < ring.len() { k + 1 } else { 0 }] as int],
                },
            )
        }),
    decreases upto,
{
    let ring = rings[r]@;
    let edge = PanelEdge {
        panel,
        a: roots[ring[k] as int],
        b: roots[ring[if k + 1 < ring.len() { k + 1 } else { 0 }] as int],
    };
    let before = panel_edges(rings, roots, panel, upto - 1);
    let all = panel_edges(rings, roots, panel, upto);
    if r < upto - 1 {
        side_of_panel(rings, roots, panel, r, k, upto - 1);
        let m = choose|m: int| 0 <= m < before.len() && before[m] == edge;
        assert(all[m] == edge);
    } else {
        ring_edges_at(ring, roots, panel, ring.len() as int);
        let added = ring_edges(ring, roots, panel, ring.len() as int);
        assert(added[k] == edge);
        assert(all[before.len() + k] == edge);
    }
}

/// A cut is taken exactly when it leaves no short piece to the cut taken before it, or to the
/// start of the edge, nor to the end of the edge.
pub proof fn taken_cuts_leave_no_short_piece(cuts: Seq<EdgeCut>, shortest: Scalar, upto: int)
    requires
        0 <= upto <= cuts.len(),
        upto <= usize::MAX,
    ensures
        ({
            let taken = spaced(cuts, shortest, upto);
            &&& ascending_indices(taken)
            &&& forall|k: int| 0 <= k < taken.len() ==> #[trigger] taken[k] < upto && shortest.le(cuts[taken[k] as int].to_end)
            &&& taken.len() > 0 ==> shortest.le(cuts[taken[0] as int].from_start)
            &&& forall|k: int| 0 < k < taken.len() ==> shortest.le(
                cuts[#[trigger] taken[k] as int].to_earlier@[taken[k - 1] as int],
            )
        }),
        upto > 0 && !spaced(cuts, shortest, upto).contains((upto - 1) as usize) ==> {
            let taken = spaced(cuts, shortest, upto);
            ||| !shortest.le(cuts[upto - 1].to_end)
            ||| taken.len() == 0 && !shortest.le(cuts[upto - 1].from_start)
            ||| taken.len() > 0 && !shortest.le(cuts[upto - 1].to_earlier@[taken.last() as int])
        },
    decreases upto,
{
    if upto > 0 {
        taken_cuts_leave_no_short_piece(cuts, shortest, upto - 1);
        let taken = spaced(cuts, shortest, upto - 1);
        crate::ordering::pushed_contains(taken, (upto - 1) as usize, (upto - 1) as usize);
    }
}

/// The number of connections is that of all lists together.
pub proof fn connections_are_counted(lists: Seq<Vec<usize>>, upto: int)
    requires
        0 <= upto <= lists.len(),
    ensures
        connection_total(lists, upto) == Seq::new(upto as nat, |p: int| lists[p]@).flatten().len(),
    decreases upto,
{
    let parts = Seq::new(upto as nat, |p: int| lists[p]@);
    parts.lemma_flatten_and_flatten_alt_are_equivalent();
    if upto > 0 {
        connections_are_counted(lists, upto - 1);
        let fewer = Seq::new((upto - 1) as nat, |p: int| lists[p]@);
        fewer.lemma_flatten_and_flatten_alt_are_equivalent();
        assert(parts.drop_last() =~= fewer);
    }
}

/// A trial is valid exactly when every panel keeps to its plane, keeps the turn of its rings,
/// its edges and their order, and no two panels come to overlap more.
pub proof fn valid_trials_harm_no_panel(checks: Seq<PanelCheck>, overlaps: Seq<Overlap>, precision: Scalar)
    requires
        trial_valid(checks, overlaps, precision),
    ensures
        forall|c: int| 0 <= c < checks.len() ==> (#[trigger] checks[c]).rings_ordered,
        forall|c: int, k: int|
            0 <= c < checks.len() && 0 <= k < checks[c].residuals@.len() ==> !precision.lt(#[trigger] checks[c].residuals@[k]),
        forall|c: int, k: int|
            0 <= c < checks.len() && 0 <= k < checks[c].orientations@.len() && !checks[c].orientations@[k].nan()
                ==> Scalar::spec_zero().lt(#[trigger] checks[c].orientations@[k]),
        forall|c: int, k: int|
            0 <= c < checks.len() && 0 <= k < checks[c].edges@.len() ==> !(#[trigger] checks[c].edges@[k])[0].lt(
                checks[c].edges@[k][1],
            ),
        forall|k: int| 0 <= k < overlaps.len() ==> !(#[trigger] overlaps[k]).allowed.lt(overlaps[k].now),
{
    assert forall|c: int| 0 <= c < checks.len() implies panel_valid(#[trigger] checks[c], precision) by {}
    assert forall|c: int, k: int|
        0 <= c < checks.len() && 0 <= k < checks[c].residuals@.len() implies !precision.lt(#[trigger] checks[c].residuals@[k]) by {
        assert(panel_valid(checks[c], precision));
    }
    assert forall|c: int, k: int|
        0 <= c < checks.len() && 0 <= k < checks[c].orientations@.len() && !checks[c].orientations@[k].nan() implies Scalar::spec_zero().lt(
        #[trigger] checks[c].orientations@[k],
    ) by {
        assert(panel_valid(checks[c], precision));
    }
    assert forall|c: int, k: int|
        0 <= c < checks.len() && 0 <= k < checks[c].edges@.len() implies !(#[trigger] checks[c].edges@[k])[0].lt(
        checks[c].edges@[k][1],
    ) by {
        assert(panel_valid(checks[c], precision));
    }
}

/// A panel without fault is valid.
pub proof fn sound_panels_are_valid(check: PanelCheck, precision: Scalar)
    requires
        check.rings_ordered,
        forall|k: int| 0 <= k < check.residuals@.len() ==> (#[trigger] check.residuals@[k]).le(precision),
        forall|k: int| 0 <= k < check.orientations@.len() ==> Scalar::spec_zero().lt(#[trigger] check.orientations@[k]),
        forall|k: int| 0 <= k < check.edges@.len() ==> (#[trigger] check.edges@[k])[1].le(check.edges@[k][0]),
    ensures
        panel_valid(check, precision),
        trial_valid(seq![check], seq![], precision),
{
    assert(seq![check][0] == check);
}

/// Nearer ones come first, and every one comes once.
pub proof fn nearer_ones_come_first(order: Seq<usize>, distances: Seq<Scalar>, i: int, j: int)
    requires
        by_distance(order, distances),
        0 <= i < j < order.len(),
    ensures
        order.len() == distances.len(),
        order[i] != order[j],
        distances[order[i] as int].total_rank() <= distances[order[j] as int].total_rank(),
        distances[order[i] as int] == distances[order[j] as int] ==> order[i] < order[j],
{
    let keys = choose|keys: Seq<i128>| #[trigger] distance_keys(keys, distances) && stable_order(keys, order);
    assert(crate::ordering::key_before(keys, order[i], order[j]));
    assert(keys[order[i] as int] == distances[order[i] as int].total_rank());
    assert(keys[order[j] as int] == distances[order[j] as int].total_rank());
}

/// A vertex that may be put on an edge is none of its ends and stands on no side of its panel.
pub proof fn snapped_vertices_are_foreign(graph: Graph, vertex: usize, edge: PanelEdge)
    requires
        apart(graph, vertex, edge),
        graph.roots()[edge.a as int] == edge.a,
        graph.roots()[edge.b as int] == edge.b,
    ensures
        snap_allowed(graph, vertex, edge.a, edge.b, edge.panel),
        vertex != edge.a,
        vertex != edge.b,
{
}

/// Two panels are neighbours exactly when a side of one joins the vertices of a side of the
/// other.
pub proof fn neighbours_have_a_side_in_common(list: Seq<usize>, edges: Seq<PanelEdge>, p: usize, i: int, j: int)
    requires
        neighbours_of(list, edges, p),
        0 <= i < edges.len(),
        0 <= j < edges.len(),
        edges[i].panel == p,
        edges[j].panel != p,
        (edges[i].a == edges[j].a && edges[i].b == edges[j].b) || (edges[i].a == edges[j].b && edges[i].b == edges[j].a),
    ensures
        list.contains(edges[j].panel),
        !list.contains(p),
{
    crate::edges::keys_tell_edges_apart(edges[i].a, edges[i].b, edges[j].a, edges[j].b);
    assert(share_edge(edges, p, edges[j].panel));
}

/// A merge and a snap leave the rings and the number of vertices as they were, and change the
/// panels and the sources of no vertex but their own.
pub proof fn rings_stay_under_merges_and_snaps(
    before: Graph,
    merge: Graph,
    snap: Graph,
    x: int,
    y: int,
    point: Point,
    v: int,
    target: usize,
    measure: SnapMeasure,
    i: int,
)
    requires
        merged(before, merge, x, y, point),
        snapped(before, snap, v, x, y, target, measure),
        0 <= i < before.owners().len(),
        0 <= x < before.points().len(),
        0 <= y < before.points().len(),
        0 <= v < before.points().len(),
        before.owners().len() == before.origins().len(),
        before.roots().len() == before.origins().len(),
    ensures
        merge.rings() == before.rings() && snap.rings() == before.rings(),
        merge.points().len() == before.points().len() && snap.points().len() == before.points().len(),
        merge.origins().len() == before.origins().len() && snap.origins() == before.origins(),
        merge.owners().len() == before.owners().len() && snap.owners().len() == before.owners().len(),
        merge.roots().len() == before.roots().len() && snap.roots() == before.roots(),
        i != x ==> merge.owners()[i] == before.owners()[i] && merge.origins()[i] == before.origins()[i],
        i != v ==> snap.owners()[i] == before.owners()[i],
{
}

/// A vertex is beside an edge exactly when it is nearest to a place strictly between the ends.
pub proof fn vertices_beside_lie_between(near: EdgeNearness)
    requires
        !near.t.nan(),
    ensures
        beside(near) <==> !near.t.le(Scalar::spec_zero()) && !Scalar::spec_one().le(near.t),
{
}

} // verus!
