//! Planar surfaces on a shared topological graph. No implicit mechanical ties.
pub mod assembly;
pub mod axes;
pub mod cover;
pub mod frame;
pub mod gmsh;
pub mod graph;
pub mod junctions;
pub mod mesh;
pub mod planes;
pub mod recognize;
pub mod reconcile;

use vstd::prelude::*;
use crate::input::Point;
use crate::ordering::{all_distinct, lists_distinct, unique};
use crate::scalar::Scalar;

verus! {

#[derive(Debug, Clone, Copy, PartialEq, Eq, Structural)]
pub enum Error {
    InvalidPrecision,
    InvalidPlane,
    InvalidVertex,
    InvalidRing,
    NonPlanar,
    ShortEdge,
}

/// An orthonormal frame of a support plane.
#[derive(Debug, Clone, Copy)]
pub struct PlaneFrame {
    pub origin: Point,
    pub normal: Point,
    pub u: Point,
    pub v: Point,
}

#[derive(Debug, Clone, Copy, PartialEq, Eq, Structural)]
pub struct EdgeUse {
    pub edge: usize,
    pub reversed: bool,
}

#[derive(Debug)]
pub struct Surface {
    pub plane: usize,
    /// Exterior first, followed by holes. Geometry lives in plane coordinates.
    pub contours: Vec<Vec<[Scalar; 2]>>,
    pub boundaries: Vec<Vec<EdgeUse>>,
    pub source_elements: Vec<u32>,
}

/// What was measured of one ring in the frame of its plane.
#[derive(Debug)]
pub struct RingMeasure {
    /// Absolute distance of each vertex from the plane.
    pub offsets: Vec<Scalar>,
    /// In-plane coordinates of each vertex.
    pub contour: Vec<[Scalar; 2]>,
    /// In-plane length of the edge that leaves each vertex.
    pub lengths: Vec<Scalar>,
    /// The closed contour has area and does not cross or fold back on itself.
    pub simple: bool,
    /// For a hole: it lies strictly inside the exterior ring.
    pub inside: bool,
    /// For a hole: whether it stays clear of each earlier hole.
    pub clear_of: Vec<bool>,
}

#[derive(Debug)]
pub struct Model {
    precision: Scalar,
    minimum_edge: Scalar,
    planes: Vec<PlaneFrame>,
    vertices: Vec<Point>,
    edges: Vec<[usize; 2]>,
    surfaces: Vec<Surface>,
    edge_index: Vec<Vec<(usize, usize)>>,
}

/// The undirected edge between two vertices, smaller vertex first.
pub open spec fn edge_key(a: usize, b: usize) -> [usize; 2] {
    if a < b {
        [a, b]
    } else {
        [b, a]
    }
}

/// An edge list after making sure that it holds an edge.
pub open spec fn interned(edges: Seq<[usize; 2]>, key: [usize; 2]) -> Seq<[usize; 2]> {
    if edges.contains(key) {
        edges
    } else {
        edges.push(key)
    }
}

pub open spec fn after(ring: Seq<usize>, i: int) -> usize {
    ring[if i + 1 < ring.len() {
        i + 1
    } else {
        0
    }]
}

/// An edge list after interning the first `upto` edges of a closed ring.
pub open spec fn intern_ring(edges: Seq<[usize; 2]>, ring: Seq<usize>, upto: int) -> Seq<[usize; 2]>
    decreases upto,
{
    if upto <= 0 {
        edges
    } else {
        interned(
            intern_ring(edges, ring, upto - 1),
            edge_key(ring[upto - 1], after(ring, upto - 1)),
        )
    }
}

pub open spec fn intern_rings(
    edges: Seq<[usize; 2]>,
    rings: Seq<Vec<usize>>,
    upto: int,
) -> Seq<[usize; 2]>
    decreases upto,
{
    if upto <= 0 {
        edges
    } else {
        intern_ring(
            intern_rings(edges, rings, upto - 1),
            rings[upto - 1]@,
            rings[upto - 1]@.len() as int,
        )
    }
}

/// Each edge use names the interned edge of its two ring vertices, and says
/// whether the ring runs against the edge.
pub open spec fn uses_of_ring(uses: Seq<EdgeUse>, ring: Seq<usize>, edges: Seq<[usize; 2]>) -> bool {
    &&& uses.len() == ring.len()
    &&& forall|i: int|
        #![trigger uses[i]]
        0 <= i < ring.len() ==> uses[i].edge < edges.len() && edges[uses[i].edge as int] == edge_key(
            ring[i],
            after(ring, i),
        ) && uses[i].reversed == (ring[i] > after(ring, i))
}

/// One measure per ring, one entry per vertex of the ring.
pub open spec fn measures_fit(rings: Seq<Vec<usize>>, measures: Seq<RingMeasure>) -> bool {
    &&& measures.len() == rings.len()
    &&& forall|r: int|
        0 <= r < rings.len() ==> (#[trigger] measures[r]).offsets@.len() == rings[r]@.len()
            && measures[r].contour@.len() == rings[r]@.len() && measures[r].lengths@.len()
            == rings[r]@.len() && measures[r].clear_of@.len() >= r
}

/// Known vertices and the tolerances of a model.
pub ghost struct Limits {
    pub vertices: nat,
    pub precision: Scalar,
    pub minimum_edge: Scalar,
}

/// The first reason against using vertex `i` of a ring, if there is one.
pub open spec fn vertex_error(
    limits: Limits,
    ring: Seq<usize>,
    measure: RingMeasure,
    i: int,
) -> Option<Error> {
    if ring[i] >= limits.vertices || after(ring, i) >= limits.vertices {
        Some(Error::InvalidVertex)
    } else if limits.precision.lt(measure.offsets@[i]) {
        Some(Error::NonPlanar)
    } else if !measure.lengths@[i].finite() || measure.lengths@[i].lt(limits.minimum_edge) {
        Some(Error::ShortEdge)
    } else {
        None
    }
}

pub open spec fn first_vertex_error(
    limits: Limits,
    ring: Seq<usize>,
    measure: RingMeasure,
    from: int,
) -> Option<Error>
    decreases ring.len() - from,
{
    if from >= ring.len() {
        None
    } else {
        match vertex_error(limits, ring, measure, from) {
            Some(error) => Some(error),
            None => first_vertex_error(limits, ring, measure, from + 1),
        }
    }
}

pub open spec fn ring_error(limits: Limits, ring: Seq<usize>, measure: RingMeasure) -> Option<Error> {
    if ring.len() < 3 || !ring.no_duplicates() {
        Some(Error::InvalidRing)
    } else {
        match first_vertex_error(limits, ring, measure, 0) {
            Some(error) => Some(error),
            None => if measure.simple {
                None
            } else {
                Some(Error::InvalidRing)
            },
        }
    }
}

pub open spec fn first_ring_error(
    limits: Limits,
    rings: Seq<Vec<usize>>,
    measures: Seq<RingMeasure>,
    from: int,
) -> Option<Error>
    decreases rings.len() - from,
{
    if from >= rings.len() {
        None
    } else {
        match ring_error(limits, rings[from]@, measures[from]) {
            Some(error) => Some(error),
            None => first_ring_error(limits, rings, measures, from + 1),
        }
    }
}

/// Why the rings of a surface are refused; `None` where they are taken.
pub open spec fn rings_error(
    limits: Limits,
    rings: Seq<Vec<usize>>,
    measures: Seq<RingMeasure>,
) -> Option<Error> {
    if rings.len() == 0 {
        Some(Error::InvalidRing)
    } else {
        match first_ring_error(limits, rings, measures, 0) {
            Some(error) => Some(error),
            None => if holes_nested(measures) {
                None
            } else {
                Some(Error::InvalidRing)
            },
        }
    }
}

impl Model {
    pub closed spec fn spec_precision(&self) -> Scalar {
        self.precision
    }

    pub closed spec fn spec_minimum_edge(&self) -> Scalar {
        self.minimum_edge
    }

    pub closed spec fn spec_planes(&self) -> Seq<PlaneFrame> {
        self.planes@
    }

    pub closed spec fn spec_vertices(&self) -> Seq<Point> {
        self.vertices@
    }

    pub closed spec fn spec_edges(&self) -> Seq<[usize; 2]> {
        self.edges@
    }

    pub closed spec fn spec_surfaces(&self) -> Seq<Surface> {
        self.surfaces@
    }

    spec fn indexed(&self) -> bool {
        &&& self.edge_index@.len() == self.vertices@.len()
        &&& forall|a: int, k: int|
            0 <= a < self.edge_index@.len() && 0 <= k < self.edge_index@[a]@.len() ==> {
                let entry = #[trigger] self.edge_index@[a]@[k];
                entry.1 < self.edges@.len() && self.edges@[entry.1 as int] == [a as usize, entry.0]
            }
        &&& forall|e: int|
            0 <= e < self.edges@.len() ==> self.edge_index@[(#[trigger] self.edges@[e])[0] as int]@.contains(
                (self.edges@[e][1], e as usize),
            )
    }

    /// Every edge joins two different known vertices, smaller one first, and
    /// no two edges join the same vertices.
    pub closed spec fn well_formed(&self) -> bool {
        &&& self.indexed()
        &&& edges_sound(self.edges@, self.vertices@.len() as int)
    }

    /// What rings are checked against.
    pub open spec fn limits(&self) -> Limits {
        Limits {
            vertices: self.spec_vertices().len(),
            precision: self.spec_precision(),
            minimum_edge: self.spec_minimum_edge(),
        }
    }

    /// Why a surface is refused; `None` where it is taken.
    pub open spec fn surface_error(
        &self,
        plane: usize,
        rings: Seq<Vec<usize>>,
        measures: Seq<RingMeasure>,
    ) -> Option<Error> {
        if plane >= self.spec_planes().len() {
            Some(Error::InvalidPlane)
        } else {
            rings_error(self.limits(), rings, measures)
        }
    }

    pub fn new(precision: Scalar, minimum_edge: Scalar) -> (r: Result<Model, Error>)
        ensures
            match r {
                Ok(model) => {
                    &&& crate::scalar::positive(precision) && minimum_edge.finite() && precision.lt(
                        minimum_edge,
                    )
                    &&& model.well_formed()
                    &&& model.spec_precision() == precision
                    &&& model.spec_minimum_edge() == minimum_edge
                    &&& model.spec_planes() == Seq::<PlaneFrame>::empty()
                    &&& model.spec_vertices() == Seq::<Point>::empty()
                    &&& model.spec_edges() == Seq::<[usize; 2]>::empty()
                    &&& model.spec_surfaces() == Seq::<Surface>::empty()
                },
                Err(error) => error == Error::InvalidPrecision && !(crate::scalar::positive(
                    precision,
                ) && minimum_edge.finite() && precision.lt(minimum_edge)),
            },
    {
        if !precision.is_finite() || !minimum_edge.is_finite() || precision.at_most(&Scalar::zero())
            || minimum_edge.at_most(&precision) {
            return Err(Error::InvalidPrecision);
        }
        Ok(
            Model {
                precision,
                minimum_edge,
                planes: Vec::new(),
                vertices: Vec::new(),
                edges: Vec::new(),
                surfaces: Vec::new(),
                edge_index: Vec::new(),
            },
        )
    }

    pub fn add_plane(&mut self, plane: PlaneFrame) -> (id: usize)
        requires
            old(self).well_formed(),
        ensures
            final(self).well_formed(),
            id == old(self).spec_planes().len(),
            final(self).spec_planes() == old(self).spec_planes().push(plane),
            final(self).spec_vertices() == old(self).spec_vertices(),
            final(self).spec_edges() == old(self).spec_edges(),
            final(self).spec_surfaces() == old(self).spec_surfaces(),
            final(self).spec_precision() == old(self).spec_precision(),
            final(self).spec_minimum_edge() == old(self).spec_minimum_edge(),
    {
        let id: usize = self.planes.len();
        self.planes.push(plane);
        id
    }

    /// Identity is explicit: coordinate proximity alone never creates a connection.
    pub fn add_vertex(&mut self, point: Point) -> (r: Result<usize, Error>)
        requires
            old(self).well_formed(),
        ensures
            final(self).well_formed(),
            match r {
                Ok(id) => {
                    &&& point[0].finite() && point[1].finite() && point[2].finite()
                    &&& id == old(self).spec_vertices().len()
                    &&& final(self).spec_vertices() == old(self).spec_vertices().push(point)
                    &&& final(self).spec_planes() == old(self).spec_planes()
                    &&& final(self).spec_edges() == old(self).spec_edges()
                    &&& final(self).spec_surfaces() == old(self).spec_surfaces()
                    &&& final(self).spec_precision() == old(self).spec_precision()
                    &&& final(self).spec_minimum_edge() == old(self).spec_minimum_edge()
                },
                Err(error) => {
                    &&& error == Error::InvalidVertex
                    &&& !(point[0].finite() && point[1].finite() && point[2].finite())
                    &&& *final(self) == *old(self)
                },
            },
    {
        if !point[0].is_finite() || !point[1].is_finite() || !point[2].is_finite() {
            return Err(Error::InvalidVertex);
        }
        let id: usize = self.vertices.len();
        self.vertices.push(point);
        self.edge_index.push(Vec::new());
        proof {
            assert(self.edge_index@[id as int]@.len() == 0);
            assert forall|a: int, k: int|
                0 <= a < self.edge_index@.len() && 0 <= k < self.edge_index@[a]@.len() implies {
                let entry = #[trigger] self.edge_index@[a]@[k];
                entry.1 < self.edges@.len() && self.edges@[entry.1 as int] == [a as usize, entry.0]
            } by {
                assert(a < id);
                assert(self.edge_index@[a]@[k] == old(self).edge_index@[a]@[k]);
            }
        }
        Ok(id)
    }

    /// Puts a vertex elsewhere. Contours are left as they were measured.
    pub fn move_vertex(&mut self, vertex: usize, point: Point)
        requires
            old(self).well_formed(),
            vertex < old(self).spec_vertices().len(),
        ensures
            final(self).well_formed(),
            final(self).spec_vertices() == old(self).spec_vertices().update(vertex as int, point),
            final(self).spec_planes() == old(self).spec_planes(),
            final(self).spec_edges() == old(self).spec_edges(),
            final(self).spec_surfaces() == old(self).spec_surfaces(),
            final(self).spec_precision() == old(self).spec_precision(),
            final(self).spec_minimum_edge() == old(self).spec_minimum_edge(),
    {
        self.vertices.set(vertex, point);
    }

    /// Takes over the contours of a surface as measured anew.
    pub fn reshape_surface(&mut self, surface: usize, contours: Vec<Vec<[Scalar; 2]>>)
        requires
            old(self).well_formed(),
            surface < old(self).spec_surfaces().len(),
        ensures
            final(self).well_formed(),
            final(self).spec_surfaces().len() == old(self).spec_surfaces().len(),
            forall|s: int|
                0 <= s < old(self).spec_surfaces().len() && s != surface
                    ==> #[trigger] final(self).spec_surfaces()[s] == old(self).spec_surfaces()[s],
            final(self).spec_surfaces()[surface as int] == (Surface {
                contours,
                ..old(self).spec_surfaces()[surface as int]
            }),
            final(self).spec_vertices() == old(self).spec_vertices(),
            final(self).spec_planes() == old(self).spec_planes(),
            final(self).spec_edges() == old(self).spec_edges(),
            final(self).spec_precision() == old(self).spec_precision(),
            final(self).spec_minimum_edge() == old(self).spec_minimum_edge(),
    {
        let mut shaped = self.surfaces.remove(surface);
        shaped.contours = contours;
        self.surfaces.insert(surface, shaped);
    }

    pub fn surfaces(&self) -> (r: &Vec<Surface>)
        ensures
            r@ == self.spec_surfaces(),
    {
        &self.surfaces
    }

    pub fn edges(&self) -> (r: &Vec<[usize; 2]>)
        ensures
            r@ == self.spec_edges(),
    {
        &self.edges
    }

    pub fn planes(&self) -> (r: &Vec<PlaneFrame>)
        ensures
            r@ == self.spec_planes(),
    {
        &self.planes
    }

    pub fn vertices(&self) -> (r: &Vec<Point>)
        ensures
            r@ == self.spec_vertices(),
    {
        &self.vertices
    }

    fn check_ring(&self, ring: &Vec<usize>, measure: &RingMeasure) -> (r: Option<Error>)
        requires
            measure.offsets@.len() == ring@.len(),
            measure.lengths@.len() == ring@.len(),
        ensures
            r == ring_error(self.limits(), ring@, *measure),
    {
        if ring.len() < 3 || !all_distinct(ring) {
            return Some(Error::InvalidRing);
        }
        let mut i: usize = 0;
        while i < ring.len()
            invariant
                i <= ring.len(),
                3 <= ring.len(),
                measure.offsets@.len() == ring@.len(),
                measure.lengths@.len() == ring@.len(),
                first_vertex_error(self.limits(), ring@, *measure, 0) == first_vertex_error(
                    self.limits(),
                    ring@,
                    *measure,
                    i as int,
                ),
                ring@.no_duplicates(),
            decreases ring.len() - i,
        {
            let next: usize = if i + 1 < ring.len() {
                ring[i + 1]
            } else {
                ring[0]
            };
            assert(next == after(ring@, i as int));
            if ring[i] >= self.vertices.len() || next >= self.vertices.len() {
                return Some(Error::InvalidVertex);
            }
            if self.precision.less(&measure.offsets[i]) {
                return Some(Error::NonPlanar);
            }
            if !measure.lengths[i].is_finite() || measure.lengths[i].less(&self.minimum_edge) {
                return Some(Error::ShortEdge);
            }
            i += 1;
        }
        if measure.simple {
            None
        } else {
            Some(Error::InvalidRing)
        }
    }

    #[verifier::loop_isolation(false)]
    fn check_surface(&self, plane: usize, rings: &Vec<Vec<usize>>, measures: &Vec<RingMeasure>) -> (r:
        Option<Error>)
        requires
            measures_fit(rings@, measures@),
        ensures
            r == self.surface_error(plane, rings@, measures@),
    {
        if plane >= self.planes.len() {
            return Some(Error::InvalidPlane);
        }
        if rings.len() == 0 {
            return Some(Error::InvalidRing);
        }
        let mut i: usize = 0;
        while i < rings.len()
            invariant
                i <= rings.len(),
                measures_fit(rings@, measures@),
                first_ring_error(self.limits(), rings@, measures@, 0) == first_ring_error(
                    self.limits(),
                    rings@,
                    measures@,
                    i as int,
                ),
            decreases rings.len() - i,
        {
            assert(measures@[i as int].offsets@.len() == rings@[i as int]@.len());
            match self.check_ring(&rings[i], &measures[i]) {
                Some(error) => {
                    return Some(error);
                },
                None => {},
            }
            i += 1;
        }
        let mut hole: usize = 1;
        while hole < rings.len()
            invariant
                1 <= hole <= rings.len(),
                measures_fit(rings@, measures@),
                forall|h: int| 1 <= h < hole ==> #[trigger] hole_nested(measures@, h),
            decreases rings.len() - hole,
        {
            assert(measures@[hole as int].clear_of@.len() >= hole);
            if !measures[hole].inside {
                assert(!hole_nested(measures@, hole as int));
                return Some(Error::InvalidRing);
            }
            let mut earlier: usize = 1;
            while earlier < hole
                invariant
                    1 <= earlier <= hole < rings.len(),
                    measures_fit(rings@, measures@),
                    measures@[hole as int].clear_of@.len() >= hole,
                    forall|e: int| 1 <= e < earlier ==> #[trigger] measures@[hole as int].clear_of@[e],
                decreases hole - earlier,
            {
                if !measures[hole].clear_of[earlier] {
                    assert(!hole_nested(measures@, hole as int));
                    return Some(Error::InvalidRing);
                }
                earlier += 1;
            }
            hole += 1;
        }
        None
    }

    fn intern_edge(&mut self, a: usize, b: usize) -> (edge: usize)
        requires
            old(self).well_formed(),
            a != b,
            a < old(self).spec_vertices().len(),
            b < old(self).spec_vertices().len(),
        ensures
            final(self).well_formed(),
            final(self).spec_edges() == interned(old(self).spec_edges(), edge_key(a, b)),
            edge < final(self).spec_edges().len(),
            final(self).spec_edges()[edge as int] == edge_key(a, b),
            final(self).spec_vertices() == old(self).spec_vertices(),
            final(self).spec_planes() == old(self).spec_planes(),
            final(self).spec_surfaces() == old(self).spec_surfaces(),
            final(self).spec_precision() == old(self).spec_precision(),
            final(self).spec_minimum_edge() == old(self).spec_minimum_edge(),
    {
        let low: usize = if a < b {
            a
        } else {
            b
        };
        let high: usize = if a < b {
            b
        } else {
            a
        };
        let ghost key = edge_key(a, b);
        assert(key =~= [low, high]);
        let mut k: usize = 0;
        while k < self.edge_index[low].len()
            invariant
                low < self.edge_index@.len(),
                *self == *old(self),
                self.well_formed(),
                key == edge_key(a, b),
                key == [low, high],
                k <= self.edge_index@[low as int]@.len(),
                forall|j: int|
                    0 <= j < k ==> (#[trigger] self.edge_index@[low as int]@[j]).0 != high,
            decreases self.edge_index@[low as int]@.len() - k,
        {
            let (other, edge) = self.edge_index[low][k];
            if other == high {
                assert(self.edges@[edge as int] == key);
                return edge;
            }
            k += 1;
        }
        proof {
            if self.edges@.contains(key) {
                let e = choose|e: int| 0 <= e < self.edges@.len() && self.edges@[e] == key;
                assert(self.edges@[e][0] == low && self.edges@[e][1] == high);
                assert(self.edge_index@[low as int]@.contains((high, e as usize)));
                let j = choose|j: int|
                    0 <= j < self.edge_index@[low as int]@.len() && self.edge_index@[low as int]@[j]
                        == (high, e as usize);
                assert(self.edge_index@[low as int]@[j].0 == high);
            }
        }
        let edge: usize = self.edges.len();
        self.edges.push([low, high]);
        self.edge_index[low].push((high, edge));
        proof {
            let before = old(self);
            assert(self.edges@ == before.edges@.push(key));
            assert forall|x: int, j: int|
                0 <= x < self.edge_index@.len() && 0 <= j < self.edge_index@[x]@.len() implies {
                let entry = #[trigger] self.edge_index@[x]@[j];
                entry.1 < self.edges@.len() && self.edges@[entry.1 as int] == [x as usize, entry.0]
            } by {
                if x != low || j < before.edge_index@[x]@.len() {
                    assert(self.edge_index@[x]@[j] == before.edge_index@[x]@[j]);
                }
            }
            assert forall|e: int| 0 <= e < self.edges@.len() implies self.edge_index@[(#[trigger] self.edges@[e])[0] as int]@.contains(
                (self.edges@[e][1], e as usize),
            ) by {
                if e < before.edges@.len() {
                    let x = before.edges@[e][0] as int;
                    let wanted = (before.edges@[e][1], e as usize);
                    assert(before.edge_index@[x]@.contains(wanted));
                    let j = choose|j: int| 0 <= j < before.edge_index@[x]@.len() && before.edge_index@[x]@[j] == wanted;
                    assert(self.edge_index@[x]@[j] == wanted);
                } else {
                    let last = self.edge_index@[low as int]@.len() - 1;
                    assert(self.edge_index@[low as int]@[last] == (high, edge));
                }
            }
            assert forall|e: int, f: int| 0 <= e < f < self.edges@.len() implies self.edges@[e] != self.edges@[f] by {
                if f == before.edges@.len() {
                    assert(before.edges@.contains(before.edges@[e]));
                }
            }
        }
        edge
    }

    fn intern_boundary(&mut self, ring: &Vec<usize>) -> (uses: Vec<EdgeUse>)
        requires
            old(self).well_formed(),
            ring.len() >= 3,
            ring@.no_duplicates(),
            forall|i: int| 0 <= i < ring.len() ==> #[trigger] ring@[i] < old(self).spec_vertices().len(),
        ensures
            final(self).well_formed(),
            final(self).spec_edges() == intern_ring(
                old(self).spec_edges(),
                ring@,
                ring.len() as int,
            ),
            uses_of_ring(uses@, ring@, final(self).spec_edges()),
            final(self).spec_vertices() == old(self).spec_vertices(),
            final(self).spec_planes() == old(self).spec_planes(),
            final(self).spec_surfaces() == old(self).spec_surfaces(),
            final(self).spec_precision() == old(self).spec_precision(),
            final(self).spec_minimum_edge() == old(self).spec_minimum_edge(),
    {
        let mut uses: Vec<EdgeUse> = Vec::new();
        let mut i: usize = 0;
        while i < ring.len()
            invariant
                i <= ring.len(),
                ring.len() >= 3,
                ring@.no_duplicates(),
                forall|k: int| 0 <= k < ring.len() ==> #[trigger] ring@[k] < self.spec_vertices().len(),
                self.well_formed(),
                self.spec_edges() == intern_ring(old(self).spec_edges(), ring@, i as int),
                uses.len() == i,
                forall|k: int|
                    #![trigger uses@[k]]
                    0 <= k < i ==> uses@[k].edge < self.spec_edges().len()
                        && self.spec_edges()[uses@[k].edge as int] == edge_key(
                        ring@[k],
                        after(ring@, k),
                    ) && uses@[k].reversed == (ring@[k] > after(ring@, k)),
                self.spec_vertices() == old(self).spec_vertices(),
                self.spec_planes() == old(self).spec_planes(),
                self.spec_surfaces() == old(self).spec_surfaces(),
                self.spec_precision() == old(self).spec_precision(),
                self.spec_minimum_edge() == old(self).spec_minimum_edge(),
            decreases ring.len() - i,
        {
            let a: usize = ring[i];
            let b: usize = if i + 1 < ring.len() {
                ring[i + 1]
            } else {
                ring[0]
            };
            assert(b == after(ring@, i as int));
            let ghost before = self.spec_edges();
            let edge = self.intern_edge(a, b);
            assert forall|e: int| 0 <= e < before.len() implies self.spec_edges()[e] == before[e] by {}
            uses.push(EdgeUse { edge, reversed: a > b });
            i += 1;
        }
        uses
    }

    /// Transactional insertion. Warped input is refused rather than projecting
    /// a shared vertex independently onto each owner's plane.
    pub fn add_surface(
        &mut self,
        plane: usize,
        rings: Vec<Vec<usize>>,
        source_elements: Vec<u32>,
        measures: Vec<RingMeasure>,
    ) -> (r: Result<usize, Error>)
        requires
            old(self).well_formed(),
            measures_fit(rings@, measures@),
        ensures
            final(self).well_formed(),
            match old(self).surface_error(plane, rings@, measures@) {
                Some(error) => r == Err::<usize, Error>(error) && *final(self) == *old(self),
                None => {
                    &&& r == Ok::<usize, Error>(old(self).spec_surfaces().len() as usize)
                    &&& final(self).spec_vertices() == old(self).spec_vertices()
                    &&& final(self).spec_planes() == old(self).spec_planes()
                    &&& final(self).spec_precision() == old(self).spec_precision()
                    &&& final(self).spec_minimum_edge() == old(self).spec_minimum_edge()
                    &&& final(self).spec_edges() == intern_rings(
                        old(self).spec_edges(),
                        rings@,
                        rings@.len() as int,
                    )
                    &&& final(self).spec_surfaces().len() == old(self).spec_surfaces().len() + 1
                    &&& final(self).spec_surfaces().drop_last() == old(self).spec_surfaces()
                    &&& surface_of(
                        final(self).spec_surfaces().last(),
                        plane,
                        rings@,
                        source_elements@,
                        measures@,
                        final(self).spec_edges(),
                    )
                },
            },
    {
        match self.check_surface(plane, &rings, &measures) {
            Some(error) => {
                return Err(error);
            },
            None => {},
        }
        proof {
            self.accepted_rings(rings@, measures@, 0);
        }
        let mut boundaries: Vec<Vec<EdgeUse>> = Vec::new();
        let mut i: usize = 0;
        while i < rings.len()
            invariant
                i <= rings.len(),
                self.well_formed(),
                self.spec_vertices() == old(self).spec_vertices(),
                self.spec_planes() == old(self).spec_planes(),
                self.spec_surfaces() == old(self).spec_surfaces(),
                self.spec_precision() == old(self).spec_precision(),
                self.spec_minimum_edge() == old(self).spec_minimum_edge(),
                forall|k: int|
                    0 <= k < rings.len() ==> ring_usable(
                        (#[trigger] rings@[k])@,
                        self.spec_vertices().len() as int,
                    ),
                self.spec_edges() == intern_rings(old(self).spec_edges(), rings@, i as int),
                boundaries.len() == i,
                forall|k: int|
                    0 <= k < i ==> uses_of_ring(
                        (#[trigger] boundaries@[k])@,
                        rings@[k]@,
                        self.spec_edges(),
                    ),
            decreases rings.len() - i,
        {
            let ghost before = self.spec_edges();
            assert(ring_usable(rings@[i as int]@, self.spec_vertices().len() as int));
            let uses = self.intern_boundary(&rings[i]);
            proof {
                intern_ring_extends(before, rings@[i as int]@, rings@[i as int]@.len() as int);
                assert forall|k: int| 0 <= k < i implies uses_of_ring(
                    (#[trigger] boundaries@[k])@,
                    rings@[k]@,
                    self.spec_edges(),
                ) by {
                    assert(uses_of_ring(boundaries@[k]@, rings@[k]@, before));
                }
            }
            boundaries.push(uses);
            i += 1;
        }
        let mut contours: Vec<Vec<[Scalar; 2]>> = Vec::new();
        let mut j: usize = 0;
        while j < measures.len()
            invariant
                j <= measures.len(),
                contours.len() == j,
                forall|k: int|
                    0 <= k < j ==> (#[trigger] contours@[k])@ == measures@[k].contour@,
            decreases measures.len() - j,
        {
            let contour = copy_contour(&measures[j].contour);
            contours.push(contour);
            j += 1;
        }
        let id: usize = self.surfaces.len();
        self.surfaces.push(
            Surface { plane, contours, boundaries, source_elements: unique(source_elements) },
        );
        assert(self.surfaces@.drop_last() =~= old(self).surfaces@);
        Ok(id)
    }

    proof fn accepted_rings(&self, rings: Seq<Vec<usize>>, measures: Seq<RingMeasure>, from: int)
        requires
            0 <= from <= rings.len(),
            first_ring_error(self.limits(), rings, measures, from) is None,
        ensures
            forall|k: int|
                from <= k < rings.len() ==> ring_usable(
                    (#[trigger] rings[k])@,
                    self.spec_vertices().len() as int,
                ),
        decreases rings.len() - from,
    {
        if from < rings.len() {
            self.accepted_rings(rings, measures, from + 1);
            self.accepted_vertices(rings[from]@, measures[from], 0);
        }
    }

    proof fn accepted_vertices(&self, ring: Seq<usize>, measure: RingMeasure, from: int)
        requires
            0 <= from <= ring.len(),
            first_vertex_error(self.limits(), ring, measure, from) is None,
        ensures
            forall|k: int|
                from <= k < ring.len() ==> #[trigger] ring[k] < self.spec_vertices().len(),
        decreases ring.len() - from,
    {
        if from < ring.len() {
            self.accepted_vertices(ring, measure, from + 1);
        }
    }

    /// What a well-formed model says of its edges.
    pub proof fn edges_identify(&self)
        requires
            self.well_formed(),
        ensures
            edges_sound(self.spec_edges(), self.spec_vertices().len() as int),
    {
    }
}

pub open spec fn ring_usable(ring: Seq<usize>, vertices: int) -> bool {
    &&& ring.len() >= 3
    &&& ring.no_duplicates()
    &&& forall|i: int| 0 <= i < ring.len() ==> #[trigger] ring[i] < vertices
}

/// Edges join two different vertices each, no two the same ones.
pub open spec fn edges_sound(edges: Seq<[usize; 2]>, vertices: int) -> bool {
    &&& forall|e: int|
        0 <= e < edges.len() ==> (#[trigger] edges[e])[0] < edges[e][1] && edges[e][1] < vertices
    &&& forall|e: int, f: int| 0 <= e < f < edges.len() ==> edges[e] != edges[f]
}

pub open spec fn hole_nested(measures: Seq<RingMeasure>, h: int) -> bool {
    measures[h].inside && forall|e: int| 1 <= e < h ==> #[trigger] measures[h].clear_of@[e]
}

/// Every hole lies inside the exterior and clear of the other holes.
pub open spec fn holes_nested(measures: Seq<RingMeasure>) -> bool {
    forall|h: int| 1 <= h < measures.len() ==> #[trigger] hole_nested(measures, h)
}

/// The surface that stands for accepted rings.
pub open spec fn surface_of(
    surface: Surface,
    plane: usize,
    rings: Seq<Vec<usize>>,
    source_elements: Seq<u32>,
    measures: Seq<RingMeasure>,
    edges: Seq<[usize; 2]>,
) -> bool {
    &&& surface.plane == plane
    &&& lists_distinct(surface.source_elements@, source_elements)
    &&& surface.contours@.len() == rings.len()
    &&& forall|k: int|
        0 <= k < rings.len() ==> (#[trigger] surface.contours@[k])@ == measures[k].contour@
    &&& surface.boundaries@.len() == rings.len()
    &&& forall|k: int|
        0 <= k < rings.len() ==> uses_of_ring(
            (#[trigger] surface.boundaries@[k])@,
            rings[k]@,
            edges,
        )
}

fn copy_contour(contour: &Vec<[Scalar; 2]>) -> (r: Vec<[Scalar; 2]>)
    ensures
        r@ == contour@,
{
    let mut r: Vec<[Scalar; 2]> = Vec::new();
    let mut i: usize = 0;
    while i < contour.len()
        invariant
            i <= contour.len(),
            r@ == contour@.take(i as int),
        decreases contour.len() - i,
    {
        r.push(contour[i]);
        assert(contour@.take(i + 1) =~= contour@.take(i as int).push(contour@[i as int]));
        i += 1;
    }
    assert(contour@.take(i as int) =~= contour@);
    r
}

/// Interning only ever appends: the edges there were keep their numbers.
pub proof fn intern_ring_extends(edges: Seq<[usize; 2]>, ring: Seq<usize>, upto: int)
    ensures
        edges.len() <= intern_ring(edges, ring, upto).len(),
        forall|e: int|
            0 <= e < edges.len() ==> #[trigger] intern_ring(edges, ring, upto)[e] == edges[e],
    decreases upto,
{
    if upto > 0 {
        intern_ring_extends(edges, ring, upto - 1);
    }
}

/// Two surfaces whose rings run along the same two vertices share one edge,
/// and use it in opposite senses exactly when they run in opposite directions.
pub proof fn shared_boundary_is_one_edge(
    edges: Seq<[usize; 2]>,
    vertices: int,
    first: Seq<usize>,
    first_uses: Seq<EdgeUse>,
    i: int,
    second: Seq<usize>,
    second_uses: Seq<EdgeUse>,
    j: int,
)
    requires
        edges_sound(edges, vertices),
        ring_usable(first, vertices),
        ring_usable(second, vertices),
        uses_of_ring(first_uses, first, edges),
        uses_of_ring(second_uses, second, edges),
        0 <= i < first.len(),
        0 <= j < second.len(),
        edge_key(first[i], after(first, i)) == edge_key(second[j], after(second, j)),
    ensures
        first_uses[i].edge == second_uses[j].edge,
        first_uses[i].reversed == second_uses[j].reversed <==> first[i] == second[j],
{
    let e = first_uses[i].edge as int;
    let f = second_uses[j].edge as int;
    if e < f {
        assert(edges[e] != edges[f]);
    } else if f < e {
        assert(edges[f] != edges[e]);
    }
    let a = edge_key(first[i], after(first, i));
    let b = edge_key(second[j], after(second, j));
    assert(a[0] == b[0] && a[1] == b[1]);
    assert(first[i] != after(first, i));
    assert(second[j] != after(second, j));
}

proof fn vertices_are_looked_at(limits: Limits, ring: Seq<usize>, measure: RingMeasure, from: int)
    requires
        0 <= from <= ring.len(),
    ensures
        first_vertex_error(limits, ring, measure, from) is None <==> forall|i: int|
            #![trigger ring[i]]
            from <= i < ring.len() ==> vertex_error(limits, ring, measure, i) is None,
    decreases ring.len() - from,
{
    if from < ring.len() {
        vertices_are_looked_at(limits, ring, measure, from + 1);
        if first_vertex_error(limits, ring, measure, from) is None {
            assert forall|i: int|
                #![trigger ring[i]]
                from <= i < ring.len() implies vertex_error(limits, ring, measure, i) is None by {
                if i > from {
                    assert(ring[i] == ring[i]);
                }
            }
        } else if forall|i: int|
            #![trigger ring[i]]
            from <= i < ring.len() ==> vertex_error(limits, ring, measure, i) is None {
            assert(ring[from] == ring[from]);
        }
    }
}

/// A ring is taken exactly when it has three vertices or more, none twice, all of them known and
/// in the plane, no edge is too short, and the contour is simple.
pub proof fn sound_rings_are_taken(limits: Limits, ring: Seq<usize>, measure: RingMeasure)
    requires
        measure.offsets@.len() == ring.len(),
        measure.lengths@.len() == ring.len(),
    ensures
        ring_error(limits, ring, measure) is None <==> {
            &&& ring.len() >= 3
            &&& ring.no_duplicates()
            &&& measure.simple
            &&& forall|i: int|
                #![trigger ring[i]]
                0 <= i < ring.len() ==> ring[i] < limits.vertices && !limits.precision.lt(measure.offsets@[i])
                    && measure.lengths@[i].finite() && !measure.lengths@[i].lt(limits.minimum_edge)
        },
{
    vertices_are_looked_at(limits, ring, measure, 0);
    if ring.len() >= 3 {
        if forall|i: int|
            #![trigger ring[i]]
            0 <= i < ring.len() ==> ring[i] < limits.vertices && !limits.precision.lt(measure.offsets@[i]) && measure.lengths@[i].finite()
                && !measure.lengths@[i].lt(limits.minimum_edge) {
            assert forall|i: int|
                #![trigger ring[i]]
                0 <= i < ring.len() implies vertex_error(limits, ring, measure, i) is None by {
                assert(after(ring, i) < limits.vertices);
            }
        }
        if forall|i: int|
            #![trigger ring[i]]
            0 <= i < ring.len() ==> vertex_error(limits, ring, measure, i) is None {
            assert forall|i: int|
                #![trigger ring[i]]
                0 <= i < ring.len() implies ring[i] < limits.vertices && !limits.precision.lt(measure.offsets@[i])
                && measure.lengths@[i].finite() && !measure.lengths@[i].lt(limits.minimum_edge) by {
                assert(vertex_error(limits, ring, measure, i) is None);
            }
        }
    }
}

proof fn rings_are_looked_at(limits: Limits, rings: Seq<Vec<usize>>, measures: Seq<RingMeasure>, from: int)
    requires
        0 <= from <= rings.len(),
    ensures
        first_ring_error(limits, rings, measures, from) is None <==> forall|r: int|
            #![trigger rings[r]]
            from <= r < rings.len() ==> ring_error(limits, rings[r]@, measures[r]) is None,
    decreases rings.len() - from,
{
    if from < rings.len() {
        rings_are_looked_at(limits, rings, measures, from + 1);
        if first_ring_error(limits, rings, measures, from) is None {
            assert forall|r: int|
                #![trigger rings[r]]
                from <= r < rings.len() implies ring_error(limits, rings[r]@, measures[r]) is None by {
                if r > from {
                    assert(rings[r] == rings[r]);
                }
            }
        } else if forall|r: int|
            #![trigger rings[r]]
            from <= r < rings.len() ==> ring_error(limits, rings[r]@, measures[r]) is None {
            assert(rings[from] == rings[from]);
        }
    }
}

/// Rings are taken exactly when there is one, each of them is taken, and every hole lies inside
/// the exterior and clear of the holes before it.
pub proof fn sound_surfaces_are_taken(limits: Limits, rings: Seq<Vec<usize>>, measures: Seq<RingMeasure>)
    requires
        measures.len() == rings.len(),
    ensures
        rings_error(limits, rings, measures) is None <==> {
            &&& rings.len() >= 1
            &&& forall|r: int|
                #![trigger rings[r]]
                0 <= r < rings.len() ==> ring_error(limits, rings[r]@, measures[r]) is None
            &&& forall|h: int| 1 <= h < measures.len() ==> (#[trigger] measures[h]).inside
            &&& forall|h: int, e: int| 1 <= e < h < measures.len() ==> #[trigger] measures[h].clear_of@[e]
        },
{
    rings_are_looked_at(limits, rings, measures, 0);
    if holes_nested(measures) {
        assert forall|h: int, e: int| 1 <= e < h < measures.len() implies #[trigger] measures[h].clear_of@[e] by {
            assert(hole_nested(measures, h));
        }
        assert forall|h: int| 1 <= h < measures.len() implies (#[trigger] measures[h]).inside by {
            assert(hole_nested(measures, h));
        }
    }
}

/// The uses of a ring follow one another: taken in its sense, each ends at the vertex where the
/// next one starts, and starts at its own vertex of the ring.
pub proof fn uses_follow_the_ring(uses: Seq<EdgeUse>, ring: Seq<usize>, edges: Seq<[usize; 2]>, i: int)
    requires
        uses_of_ring(uses, ring, edges),
        0 <= i < ring.len(),
    ensures
        ({
            let edge = edges[uses[i].edge as int];
            let start = if uses[i].reversed { edge[1] } else { edge[0] };
            let end = if uses[i].reversed { edge[0] } else { edge[1] };
            start == ring[i] && end == ring[if i + 1 < ring.len() { i + 1 } else { 0 }]
        }),
{
    assert(uses[i] == uses[i]);
}

proof fn interned_holds(edges: Seq<[usize; 2]>, key: [usize; 2], edge: [usize; 2])
    ensures
        interned(edges, key).contains(edge) <==> edges.contains(edge) || edge == key,
{
    crate::ordering::pushed_contains(edges, key, edge);
}

proof fn ring_interned_holds(edges: Seq<[usize; 2]>, ring: Seq<usize>, upto: int, edge: [usize; 2])
    requires
        0 <= upto <= ring.len(),
    ensures
        intern_ring(edges, ring, upto).contains(edge) <==> edges.contains(edge) || exists|i: int|
            #![trigger ring[i]]
            0 <= i < upto && edge == edge_key(ring[i], after(ring, i)),
    decreases upto,
{
    if upto > 0 {
        ring_interned_holds(edges, ring, upto - 1, edge);
        interned_holds(intern_ring(edges, ring, upto - 1), edge_key(ring[upto - 1], after(ring, upto - 1)), edge);
        if exists|i: int|
            #![trigger ring[i]]
            0 <= i < upto - 1 && edge == edge_key(ring[i], after(ring, i)) {
            let i = choose|i: int|
                #![trigger ring[i]]
                0 <= i < upto - 1 && edge == edge_key(ring[i], after(ring, i));
            assert(edge == edge_key(ring[i], after(ring, i)));
        }
        if exists|i: int|
            #![trigger ring[i]]
            0 <= i < upto && edge == edge_key(ring[i], after(ring, i)) {
            let i = choose|i: int|
                #![trigger ring[i]]
                0 <= i < upto && edge == edge_key(ring[i], after(ring, i));
            if i < upto - 1 {
                assert(ring[i] == ring[i]);
            }
        }
        assert(ring[upto - 1] == ring[upto - 1]);
    }
}

/// A ring adds the edges between its neighbouring vertices and no others, and keeps all that
/// there were.
pub proof fn rings_add_their_edges(edges: Seq<[usize; 2]>, ring: Seq<usize>, edge: [usize; 2])
    ensures
        intern_ring(edges, ring, ring.len() as int).contains(edge) <==> edges.contains(edge) || exists|i: int|
            #![trigger ring[i]]
            0 <= i < ring.len() && edge == edge_key(ring[i], after(ring, i)),
{
    ring_interned_holds(edges, ring, ring.len() as int, edge);
}

/// An edge has one key, whichever vertex is named first, and the key holds both.
pub proof fn edge_keys_have_one_order(a: usize, b: usize)
    ensures
        edge_key(a, b) == edge_key(b, a),
        edge_key(a, b)[0] <= edge_key(a, b)[1],
        (edge_key(a, b)[0] == a && edge_key(a, b)[1] == b) || (edge_key(a, b)[0] == b && edge_key(a, b)[1] == a),
{
    if a == b {
        assert(edge_key(a, b)@ =~= edge_key(b, a)@);
    }
}

} // verus!
