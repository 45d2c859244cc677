//! Global synchronization of mesh constraints before local surface meshing.
//!
//! Every interval endpoint is materialized once on its axis. Boundary edge
//! chains are then built from those same vertices and shared by every surface
//! that owns the edge. This keeps surface constraints and bar chains conforming
//! without welding vertices by proximity.
use vstd::prelude::*;
use crate::ordering::{ascending_indices, lists_index};
use crate::points::{is_same_value, same_value};
use crate::reconstruction::assembly::bars::Contact;
use crate::reconstruction::mesh::chains::ChainNode;
use crate::reconstruction::Surface;
use crate::scalar::Scalar;

verus! {

#[derive(Debug)]
pub struct Report {
    pub shared_edge_count: usize,
    pub interval_contact_count: usize,
    pub synchronized_interval_endpoints: usize,
    pub endpoint_bindings: Vec<EndpointBinding>,
    pub axis_node_count: usize,
    pub edge_node_count: usize,
}

#[derive(Debug, Clone, Copy, PartialEq, Eq, Structural)]
pub enum EndpointRole {
    Start,
    End,
}

#[derive(Debug, Clone, Copy, PartialEq, Eq, Structural)]
pub struct EndpointBinding {
    pub axis: usize,
    pub surface: usize,
    pub contact: usize,
    pub role: EndpointRole,
    pub parameter: Scalar,
    pub vertex: usize,
    pub generated: bool,
}

pub open spec fn axis_fault(endpoints: [usize; 2], vertices: int, length: Scalar) -> Option<Seq<char>> {
    if endpoints[0] >= vertices || endpoints[1] >= vertices {
        Some("invalid axis endpoint vertex"@)
    } else if !length.finite() || same_value(length, Scalar::spec_zero()) {
        Some("degenerate axis constraint"@)
    } else {
        None
    }
}

pub fn check_axis(endpoints: &[usize; 2], vertices: usize, length: &Scalar) -> (r: Result<(), &'static str>)
    ensures
        match r {
            Ok(_) => axis_fault(*endpoints, vertices as int, *length) is None,
            Err(error) => axis_fault(*endpoints, vertices as int, *length) == Some(error@),
        },
{
    if endpoints[0] >= vertices || endpoints[1] >= vertices {
        return Err("invalid axis endpoint vertex");
    }
    if !length.is_finite() || is_same_value(length, &Scalar::zero()) {
        return Err("degenerate axis constraint");
    }
    Ok(())
}

pub open spec fn clamped(t: Scalar) -> Scalar {
    if t.lt(Scalar::spec_zero()) {
        Scalar::spec_zero()
    } else if Scalar::spec_one().lt(t) {
        Scalar::spec_one()
    } else {
        t
    }
}

/// A parameter within the tolerance of the axis, drawn onto it. `low` and `high`
/// are the ends of the axis widened by the tolerance.
pub open spec fn on_widened_axis(t: Scalar, low: Scalar, high: Scalar) -> bool {
    t.finite() && !t.lt(low) && !high.lt(t)
}

pub fn normalized_parameter(t: &Scalar, low: &Scalar, high: &Scalar) -> (r: Result<Scalar, &'static str>)
    ensures
        match r {
            Ok(value) => on_widened_axis(*t, *low, *high) && value == clamped(*t),
            Err(error) => !on_widened_axis(*t, *low, *high) && error@
                == "axis interval parameter outside endpoints"@,
        },
{
    if !t.is_finite() || t.less(low) || high.less(t) {
        return Err("axis interval parameter outside endpoints");
    }
    if t.less(&Scalar::zero()) {
        return Ok(Scalar::zero());
    }
    if Scalar::one().less(t) {
        return Ok(Scalar::one());
    }
    Ok(*t)
}

pub open spec fn first_with_vertex(chain: Seq<ChainNode>, vertex: usize, k: int) -> bool {
    &&& 0 <= k < chain.len()
    &&& chain[k].vertex == vertex
    &&& forall|m: int| 0 <= m < k ==> (#[trigger] chain[m]).vertex != vertex
}

pub open spec fn has_vertex(chain: Seq<ChainNode>, vertex: usize) -> bool {
    exists|k: int| 0 <= k < chain.len() && (#[trigger] chain[k]).vertex == vertex
}

pub open spec fn some_near(gaps: Seq<Scalar>, tolerance: Scalar) -> bool {
    exists|k: int| 0 <= k < gaps.len() && (#[trigger] gaps[k]).le(tolerance)
}

pub open spec fn first_near(gaps: Seq<Scalar>, tolerance: Scalar, k: int) -> bool {
    &&& 0 <= k < gaps.len()
    &&& gaps[k].le(tolerance)
    &&& forall|m: int| 0 <= m < k ==> !(#[trigger] gaps[m]).le(tolerance)
}

pub fn find_near(gaps: &Vec<Scalar>, tolerance: &Scalar) -> (r: Option<usize>)
    ensures
        match r {
            Some(k) => first_near(gaps@, *tolerance, k as int) && some_near(gaps@, *tolerance),
            None => !some_near(gaps@, *tolerance),
        },
{
    let mut k: usize = 0;
    while k < gaps.len()
        invariant
            k <= gaps.len(),
            forall|m: int| 0 <= m < k ==> !(#[trigger] gaps@[m]).le(*tolerance),
        decreases gaps.len() - k,
    {
        if gaps[k].at_most(tolerance) {
            assert(gaps@[k as int].le(*tolerance));
            return Some(k);
        }
        k += 1;
    }
    None
}

fn find_vertex(chain: &Vec<ChainNode>, vertex: usize) -> (r: Option<usize>)
    ensures
        match r {
            Some(k) => first_with_vertex(chain@, vertex, k as int) && has_vertex(chain@, vertex),
            None => !has_vertex(chain@, vertex),
        },
{
    let mut k: usize = 0;
    while k < chain.len()
        invariant
            k <= chain.len(),
            forall|m: int| 0 <= m < k ==> (#[trigger] chain@[m]).vertex != vertex,
        decreases chain.len() - k,
    {
        if chain[k].vertex == vertex {
            assert(chain@[k as int].vertex == vertex);
            return Some(k);
        }
        k += 1;
    }
    None
}

/// What is measured when a vertex is put on an axis: how many vertices there
/// are, how far the vertex lies from the axis at its parameter, and how far the
/// parameters of the chain are from it.
#[derive(Debug)]
pub struct NodeMeasure {
    pub vertices: usize,
    pub off_axis: Scalar,
    pub gaps: Vec<Scalar>,
    pub tolerance: Scalar,
    pub precision: Scalar,
}

pub open spec fn insertion_fault(chain: Seq<ChainNode>, vertex: usize, measure: NodeMeasure) -> Option<Seq<char>> {
    if vertex >= measure.vertices {
        Some("invalid axis constraint vertex"@)
    } else if measure.precision.lt(measure.off_axis) {
        Some("axis constraint vertex is off axis"@)
    } else if has_vertex(chain, vertex) {
        if exists|k: int| #[trigger]
            first_with_vertex(chain, vertex, k) && measure.tolerance.lt(measure.gaps@[k]) {
            Some("axis constraint vertex has inconsistent parameter"@)
        } else {
            None
        }
    } else if some_near(measure.gaps@, measure.tolerance) {
        Some("distinct axis constraint vertices share a parameter"@)
    } else {
        None
    }
}

/// Puts a vertex on the chain of an axis. A vertex that is there keeps its place.
pub fn insert_axis_node(chain: &mut Vec<ChainNode>, t: Scalar, vertex: usize, measure: &NodeMeasure) -> (r: Result<
    bool,
    &'static str,
>)
    requires
        measure.gaps@.len() == old(chain)@.len(),
    ensures
        match r {
            Ok(added) => {
                &&& insertion_fault(old(chain)@, vertex, *measure) is None
                &&& added == !has_vertex(old(chain)@, vertex)
                &&& final(chain)@ == if added {
                    old(chain)@.push(ChainNode { t, vertex })
                } else {
                    old(chain)@
                }
            },
            Err(error) => insertion_fault(old(chain)@, vertex, *measure) == Some(error@) && final(chain)@
                == old(chain)@,
        },
{
    if vertex >= measure.vertices {
        return Err("invalid axis constraint vertex");
    }
    if measure.precision.less(&measure.off_axis) {
        return Err("axis constraint vertex is off axis");
    }
    match find_vertex(chain, vertex) {
        Some(k) => {
            if measure.tolerance.less(&measure.gaps[k]) {
                return Err("axis constraint vertex has inconsistent parameter");
            }
            proof {
                assert forall|m: int| #[trigger] first_with_vertex(chain@, vertex, m) implies !measure.tolerance.lt(measure.gaps@[m]) by {
                    if m < k {
                        assert(chain@[m].vertex != vertex);
                    } else if k < m {
                        assert(chain@[k as int].vertex != vertex);
                    }
                }
            }
            return Ok(false);
        },
        None => {
        },
    }
    match find_near(&measure.gaps, &measure.tolerance) {
        Some(_) => {
            return Err("distinct axis constraint vertices share a parameter");
        },
        None => {
        },
    }
    chain.push(ChainNode { t, vertex });
    Ok(true)
}

/// The widened axis of a contact and its parameters there.
#[derive(Debug, Clone, Copy)]
pub struct AxisBand {
    pub low: Scalar,
    pub high: Scalar,
    pub tolerance: Scalar,
}

pub open spec fn point_contact_fault(
    surface: usize,
    axis: usize,
    t: Scalar,
    surfaces: int,
    axes: int,
    band: AxisBand,
) -> Option<Seq<char>> {
    if surface >= surfaces {
        Some("invalid contact surface"@)
    } else if axis >= axes {
        Some("invalid point contact axis"@)
    } else if !on_widened_axis(t, band.low, band.high) {
        Some("axis interval parameter outside endpoints"@)
    } else {
        None
    }
}

/// The parameter of a point contact, drawn onto its axis.
pub fn point_parameter(surface: usize, axis: usize, t: &Scalar, surfaces: usize, axes: usize, band: &AxisBand) -> (r:
    Result<Scalar, &'static str>)
    ensures
        match r {
            Ok(value) => point_contact_fault(surface, axis, *t, surfaces as int, axes as int, *band) is None
                && value == clamped(*t),
            Err(error) => point_contact_fault(surface, axis, *t, surfaces as int, axes as int, *band) == Some(
                error@,
            ),
        },
{
    if surface >= surfaces {
        return Err("invalid contact surface");
    }
    if axis >= axes {
        return Err("invalid point contact axis");
    }
    normalized_parameter(t, &band.low, &band.high)
}

pub open spec fn interval_contact_fault(
    surface: usize,
    axis: usize,
    start_t: Scalar,
    end_t: Scalar,
    extent: Scalar,
    surfaces: int,
    axes: int,
    band: AxisBand,
) -> Option<Seq<char>> {
    if surface >= surfaces {
        Some("invalid contact surface"@)
    } else if axis >= axes {
        Some("invalid interval contact axis"@)
    } else if !on_widened_axis(start_t, band.low, band.high) || !on_widened_axis(
        end_t,
        band.low,
        band.high,
    ) {
        Some("axis interval parameter outside endpoints"@)
    } else if extent.le(band.tolerance) {
        Some("degenerate interval contact"@)
    } else {
        None
    }
}

/// The parameters of an interval contact, drawn onto its axis. `extent` is the
/// difference of the drawn parameters.
pub fn interval_parameters(
    surface: usize,
    axis: usize,
    start_t: &Scalar,
    end_t: &Scalar,
    extent: &Scalar,
    surfaces: usize,
    axes: usize,
    band: &AxisBand,
) -> (r: Result<(Scalar, Scalar), &'static str>)
    ensures
        match r {
            Ok(values) => interval_contact_fault(
                surface,
                axis,
                *start_t,
                *end_t,
                *extent,
                surfaces as int,
                axes as int,
                *band,
            ) is None && values == (clamped(*start_t), clamped(*end_t)),
            Err(error) => interval_contact_fault(
                surface,
                axis,
                *start_t,
                *end_t,
                *extent,
                surfaces as int,
                axes as int,
                *band,
            ) == Some(error@),
        },
{
    if surface >= surfaces {
        return Err("invalid contact surface");
    }
    if axis >= axes {
        return Err("invalid interval contact axis");
    }
    let start = match normalized_parameter(start_t, &band.low, &band.high) {
        Ok(start) => start,
        Err(error) => {
            return Err(error);
        },
    };
    let end = match normalized_parameter(end_t, &band.low, &band.high) {
        Ok(end) => end,
        Err(error) => {
            return Err(error);
        },
    };
    if extent.at_most(&band.tolerance) {
        return Err("degenerate interval contact");
    }
    Ok((start, end))
}

/// The vertex that an interval endpoint is bound to: the first of the chain near
/// its parameter, else a new one.
pub open spec fn endpoint_vertex(chain: Seq<ChainNode>, measure: NodeMeasure, vertex: usize) -> bool {
    if some_near(measure.gaps@, measure.tolerance) {
        exists|k: int| #[trigger] first_near(measure.gaps@, measure.tolerance, k) && vertex == chain[k].vertex
    } else {
        vertex == measure.vertices
    }
}

/// What stands against binding an endpoint to a vertex. A vertex that is made for
/// it counts as known.
pub open spec fn endpoint_fault(chain: Seq<ChainNode>, vertex: usize, measure: NodeMeasure) -> Option<Seq<char>> {
    insertion_fault(
        chain,
        vertex,
        NodeMeasure {
            vertices: if some_near(measure.gaps@, measure.tolerance) {
                measure.vertices
            } else {
                (measure.vertices + 1) as usize
            },
            ..measure
        },
    )
}

/// Axis chains and endpoint bindings while contacts are taken in.
#[derive(Debug)]
pub struct Synchronizer {
    pub chains: Vec<Vec<ChainNode>>,
    pub bindings: Vec<EndpointBinding>,
    pub interval_contacts: usize,
}

impl Synchronizer {
    /// Binds an endpoint of an interval contact to a vertex of its axis. A new
    /// vertex gets the next number; `measure.off_axis` is measured at the vertex
    /// that is bound.
    pub fn bind_endpoint(
        &mut self,
        axis: usize,
        surface: usize,
        contact: usize,
        role: EndpointRole,
        t: Scalar,
        measure: &NodeMeasure,
    ) -> (r: Result<EndpointBinding, &'static str>)
        requires
            axis < old(self).chains@.len(),
            measure.gaps@.len() == old(self).chains@[axis as int]@.len(),
            measure.vertices < usize::MAX,
        ensures
            final(self).interval_contacts == old(self).interval_contacts,
            ({
                let chain = old(self).chains@[axis as int]@;
                let generated = !some_near(measure.gaps@, measure.tolerance);
                match r {
                    Ok(binding) => {
                        &&& endpoint_vertex(chain, *measure, binding.vertex)
                        &&& binding == (EndpointBinding {
                            axis,
                            surface,
                            contact,
                            role,
                            parameter: t,
                            vertex: binding.vertex,
                            generated,
                        })
                        &&& final(self).bindings@ == old(self).bindings@.push(binding)
                        &&& final(self).chains@.len() == old(self).chains@.len()
                        &&& forall|a: int|
                            0 <= a < old(self).chains@.len() && a != axis ==> #[trigger] final(self).chains@[a]
                                == old(self).chains@[a]
                        &&& final(self).chains@[axis as int]@ == if has_vertex(chain, binding.vertex) {
                            chain
                        } else {
                            chain.push(ChainNode { t, vertex: binding.vertex })
                        }
                        &&& endpoint_fault(chain, binding.vertex, *measure) is None
                    },
                    Err(error) => {
                        &&& final(self).bindings@ == old(self).bindings@
                        &&& final(self).chains@.len() == old(self).chains@.len()
                        &&& forall|a: int|
                            0 <= a < old(self).chains@.len() ==> (#[trigger] final(self).chains@[a])@
                                == old(self).chains@[a]@
                        &&& exists|vertex: usize| #[trigger]
                            endpoint_vertex(chain, *measure, vertex) && endpoint_fault(chain, vertex, *measure)
                                == Some(error@)
                    },
                }
            }),
    {
        let ghost start = *self;
        let ghost chain = self.chains@[axis as int]@;
        let mut generated: bool = true;
        let mut vertex: usize = measure.vertices;
        let mut count: usize = measure.vertices + 1;
        match find_near(&measure.gaps, &measure.tolerance) {
            Some(k) => {
                vertex = self.chains[axis][k].vertex;
                generated = false;
                count = measure.vertices;
            },
            None => {
            },
        }
        assert(endpoint_vertex(chain, *measure, vertex));
        let mut gaps: Vec<Scalar> = Vec::new();
        let mut k: usize = 0;
        while k < measure.gaps.len()
            invariant
                k <= measure.gaps.len(),
                gaps@ == measure.gaps@.take(k as int),
            decreases measure.gaps.len() - k,
        {
            gaps.push(measure.gaps[k]);
            assert(measure.gaps@.take(k + 1) =~= measure.gaps@.take(k as int).push(measure.gaps@[k as int]));
            k += 1;
        }
        assert(measure.gaps@.take(k as int) =~= measure.gaps@);
        let own = NodeMeasure {
            vertices: count,
            off_axis: measure.off_axis,
            gaps,
            tolerance: measure.tolerance,
            precision: measure.precision,
        };
        let mut nodes = self.chains.remove(axis);
        let outcome = insert_axis_node(&mut nodes, t, vertex, &own);
        self.chains.insert(axis, nodes);
        proof {
            let named = NodeMeasure {
                vertices: if generated {
                    (measure.vertices + 1) as usize
                } else {
                    measure.vertices
                },
                ..*measure
            };
            same_fault(chain, vertex, own, named);
        }
        match outcome {
            Ok(_) => {
                let binding = EndpointBinding { axis, surface, contact, role, parameter: t, vertex, generated };
                self.bindings.push(binding);
                Ok(binding)
            },
            Err(error) => Err(error),
        }
    }

    /// Counts an interval contact.
    pub fn count_interval(&mut self)
        requires
            old(self).interval_contacts < usize::MAX,
        ensures
            final(self).chains == old(self).chains,
            final(self).bindings == old(self).bindings,
            final(self).interval_contacts == old(self).interval_contacts + 1,
    {
        self.interval_contacts += 1;
    }
}

proof fn same_fault(chain: Seq<ChainNode>, vertex: usize, a: NodeMeasure, b: NodeMeasure)
    requires
        a.vertices == b.vertices,
        a.off_axis == b.off_axis,
        a.gaps@ == b.gaps@,
        a.tolerance == b.tolerance,
        a.precision == b.precision,
    ensures
        insertion_fault(chain, vertex, a) == insertion_fault(chain, vertex, b),
{
    if exists|k: int| #[trigger] first_with_vertex(chain, vertex, k) && a.tolerance.lt(a.gaps@[k]) {
        let k = choose|k: int| #[trigger] first_with_vertex(chain, vertex, k) && a.tolerance.lt(a.gaps@[k]);
        assert(first_with_vertex(chain, vertex, k) && b.tolerance.lt(b.gaps@[k]));
    }
    if exists|k: int| #[trigger] first_with_vertex(chain, vertex, k) && b.tolerance.lt(b.gaps@[k]) {
        let k = choose|k: int| #[trigger] first_with_vertex(chain, vertex, k) && b.tolerance.lt(b.gaps@[k]);
        assert(first_with_vertex(chain, vertex, k) && a.tolerance.lt(a.gaps@[k]));
    }
}

/// Edges of the surface, those of the boundary first.
pub open spec fn ring_edges(surface: Surface, upto: int) -> Seq<usize>
    decreases upto,
{
    if upto <= 0 {
        Seq::empty()
    } else {
        ring_edges(surface, upto - 1) + Seq::new(
            surface.boundaries@[upto - 1]@.len(),
            |k: int| surface.boundaries@[upto - 1]@[k].edge,
        )
    }
}

pub open spec fn edges_of(surface: Surface, junctions: Seq<usize>) -> Seq<usize> {
    ring_edges(surface, surface.boundaries@.len() as int) + junctions
}

/// Lists the edges of a surface: its boundary, ring by ring, then its junctions.
#[verifier::loop_isolation(false)]
pub fn surface_edges(surface: &Surface, junctions: &Vec<usize>) -> (r: Vec<usize>)
    ensures
        r@ == edges_of(*surface, junctions@),
{
    let mut r: Vec<usize> = Vec::new();
    let mut i: usize = 0;
    while i < surface.boundaries.len()
        invariant
            i <= surface.boundaries.len(),
            r@ == ring_edges(*surface, i as int),
        decreases surface.boundaries.len() - i,
    {
        let ghost start = r@;
        let ghost ring = surface.boundaries@[i as int]@;
        let ghost wanted = Seq::new(ring.len(), |k: int| ring[k].edge);
        assert(start + wanted.take(0) =~= start);
        let mut k: usize = 0;
        while k < surface.boundaries[i].len()
            invariant
                i < surface.boundaries.len(),
                k <= ring.len(),
                r@ == start + wanted.take(k as int),
            decreases ring.len() - k,
        {
            let edge: usize = surface.boundaries[i][k].edge;
            r.push(edge);
            assert(wanted.take(k + 1) =~= wanted.take(k as int).push(edge));
            assert(r@ =~= start + wanted.take(k + 1));
            k += 1;
        }
        assert(wanted.take(k as int) =~= wanted);
        assert(wanted =~= Seq::new(surface.boundaries@[i as int]@.len(), |k: int| surface.boundaries@[i as int]@[k].edge));
        i += 1;
    }
    let ghost rings = r@;
    assert(rings + junctions@.take(0) =~= rings);
    let mut k: usize = 0;
    while k < junctions.len()
        invariant
            k <= junctions.len(),
            r@ == rings + junctions@.take(k as int),
        decreases junctions.len() - k,
    {
        r.push(junctions[k]);
        assert(junctions@.take(k + 1) =~= junctions@.take(k as int).push(junctions@[k as int]));
        assert(r@ =~= rings + junctions@.take(k + 1));
        k += 1;
    }
    assert(junctions@.take(k as int) =~= junctions@);
    r
}

pub open spec fn edge_owned(surfaces: Seq<Surface>, junctions: Seq<Vec<usize>>, edge: usize, s: usize) -> bool {
    s < surfaces.len() && edges_of(surfaces[s as int], junctions[s as int]@).contains(edge)
}

pub open spec fn edges_exist(surfaces: Seq<Surface>, junctions: Seq<Vec<usize>>, edges: int) -> bool {
    forall|s: int, k: int|
        0 <= s < surfaces.len() && 0 <= k < edges_of(surfaces[s], junctions[s]@).len()
            ==> #[trigger] edges_of(surfaces[s], junctions[s]@)[k] < edges
}

pub open spec fn owner_list(list: Seq<usize>, surfaces: Seq<Surface>, junctions: Seq<Vec<usize>>, edge: usize) -> bool {
    &&& ascending_indices(list)
    &&& forall|s: usize| #[trigger] list.contains(s) <==> edge_owned(surfaces, junctions, edge, s)
}

/// The surfaces that own each edge, ascending.
#[verifier::loop_isolation(false)]
pub fn edge_owners(surfaces: &Vec<Surface>, junctions: &Vec<Vec<usize>>, edges: usize) -> (r: Result<
    Vec<Vec<usize>>,
    &'static str,
>)
    requires
        junctions@.len() == surfaces@.len(),
    ensures
        match r {
            Ok(owners) => {
                &&& edges_exist(surfaces@, junctions@, edges as int)
                &&& owners@.len() == edges
                &&& forall|e: int|
                    0 <= e < edges ==> owner_list(
                        (#[trigger] owners@[e])@,
                        surfaces@,
                        junctions@,
                        e as usize,
                    )
            },
            Err(error) => error@ == "invalid surface edge reference"@ && !edges_exist(
                surfaces@,
                junctions@,
                edges as int,
            ),
        },
{
    let mut owners: Vec<Vec<usize>> = Vec::new();
    let mut e: usize = 0;
    while e < edges
        invariant
            e <= edges,
            owners.len() == e,
            forall|f: int| 0 <= f < e ==> (#[trigger] owners@[f])@.len() == 0,
        decreases edges - e,
    {
        owners.push(Vec::new());
        e += 1;
    }
    let mut s: usize = 0;
    while s < surfaces.len()
        invariant
            s <= surfaces.len(),
            owners@.len() == edges,
            forall|t: int, k: int|
                0 <= t < s && 0 <= k < edges_of(surfaces@[t], junctions@[t]@).len() ==> #[trigger] edges_of(surfaces@[t], junctions@[t]@)[k] < edges,
            forall|f: int| 0 <= f < edges ==> ascending_indices((#[trigger] owners@[f])@),
            forall|f: int, t: usize|
                0 <= f < edges ==> (#[trigger] owners@[f]@.contains(t) <==> t < s && edges_of(surfaces@[t as int], junctions@[t as int]@).contains(f as usize)),
        decreases surfaces.len() - s,
    {
        let list = surface_edges(&surfaces[s], &junctions[s]);
        let ghost start = owners@;
        let mut k: usize = 0;
        while k < list.len()
            invariant
                s < surfaces.len(),
                k <= list.len(),
                owners@.len() == edges,
                forall|m: int| 0 <= m < k ==> #[trigger] list@[m] < edges,
                forall|f: int| 0 <= f < edges ==> ascending_indices((#[trigger] owners@[f])@),
                forall|f: int| 0 <= f < edges && !list@.take(k as int).contains(f as usize) ==> #[trigger] owners@[f] == start[f],
                forall|f: int| 0 <= f < edges && list@.take(k as int).contains(f as usize) ==> (#[trigger] owners@[f])@ == start[f]@.push(s),
            decreases list.len() - k,
        {
            let edge: usize = list[k];
            if edge >= edges {
                assert(edges_of(surfaces@[s as int], junctions@[s as int]@)[k as int] >= edges);
                return Err("invalid surface edge reference");
            }
            let ghost short = list@.take(k as int);
            let ghost long = list@.take(k + 1);
            let ghost before = owners@;
            proof {
                assert(start[edge as int]@.contains(s) <==> s < s && edges_of(surfaces@[s as int], junctions@[s as int]@).contains(edge));
            }
            let present: bool = lists_index(&owners[edge], s);
            proof {
                if short.contains(edge) {
                    assert(before[edge as int]@ == start[edge as int]@.push(s));
                    assert(before[edge as int]@[start[edge as int]@.len() as int] == s);
                    assert(present);
                } else {
                    assert(before[edge as int] == start[edge as int]);
                    assert(!present);
                }
            }
            if !present {
                let mut own = owners.remove(edge);
                own.push(s);
                owners.insert(edge, own);
                proof {
                    let old_list = start[edge as int]@;
                    assert forall|i: int, j: int| 0 <= i < j < old_list.push(s).len() implies old_list.push(s)[i] < old_list.push(s)[j] by {
                        if j == old_list.len() {
                            assert(old_list.contains(old_list[i]));
                            assert(start[edge as int]@.contains(old_list[i]));
                        }
                    }
                }
            }
            proof {
                assert forall|x: usize| #[trigger] long.contains(x) <==> short.contains(x) || x == edge by {
                    if short.contains(x) {
                        let m = choose|m: int| 0 <= m < short.len() && short[m] == x;
                        assert(long[m] == x);
                    }
                    if x == edge {
                        assert(long[k as int] == edge);
                    }
                    if long.contains(x) {
                        let m = choose|m: int| 0 <= m < long.len() && long[m] == x;
                        if m < k {
                            assert(short[m] == x);
                        }
                    }
                }
                assert forall|f: int| 0 <= f < edges && !long.contains(f as usize) implies #[trigger] owners@[f] == start[f] by {
                    assert(owners@[f] == before[f]);
                }
                assert forall|f: int| 0 <= f < edges && long.contains(f as usize) implies (#[trigger] owners@[f])@ == start[f]@.push(s) by {
                    if f != edge {
                        assert(owners@[f] == before[f]);
                    }
                }
                assert forall|f: int| 0 <= f < edges implies ascending_indices((#[trigger] owners@[f])@) by {
                    if f != edge {
                        assert(owners@[f] == before[f]);
                    }
                }
            }
            k += 1;
        }
        proof {
            assert(list@.take(k as int) =~= list@);
            let next = s + 1;
            assert forall|f: int, t: usize| 0 <= f < edges implies (#[trigger] owners@[f]@.contains(t) <==> t < next && edges_of(surfaces@[t as int], junctions@[t as int]@).contains(f as usize)) by {
                assert(start[f]@.contains(t) <==> t < s && edges_of(surfaces@[t as int], junctions@[t as int]@).contains(f as usize));
                if list@.contains(f as usize) {
                    assert(owners@[f]@ == start[f]@.push(s));
                    if start[f]@.contains(t) {
                        let m = choose|m: int| 0 <= m < start[f]@.len() && start[f]@[m] == t;
                        assert(owners@[f]@[m] == t);
                    }
                    assert(owners@[f]@[start[f]@.len() as int] == s);
                    if owners@[f]@.contains(t) && t != s {
                        let m = choose|m: int| 0 <= m < owners@[f]@.len() && owners@[f]@[m] == t;
                        assert(start[f]@[m] == t);
                    }
                } else {
                    assert(owners@[f] == start[f]);
                }
            }
            assert forall|t: int, k: int|
                0 <= t < next && 0 <= k < edges_of(surfaces@[t], junctions@[t]@).len() implies #[trigger] edges_of(surfaces@[t], junctions@[t]@)[k] < edges by {
                if t == s {
                    assert(list@[k] < edges);
                }
            }
        }
        s += 1;
    }
    assert forall|f: int| 0 <= f < edges implies owner_list((#[trigger] owners@[f])@, surfaces@, junctions@, f as usize) by {
        assert forall|t: usize| #[trigger] owners@[f]@.contains(t) <==> edge_owned(surfaces@, junctions@, f as usize, t) by {
            assert(surfaces@.len() == s);
        }
    }
    Ok(owners)
}

/// How many of the first edges have more than one owner.
pub open spec fn shared_edges(owners: Seq<Vec<usize>>, upto: int) -> nat
    decreases upto,
{
    if upto <= 0 {
        0
    } else if owners[upto - 1]@.len() > 1 {
        shared_edges(owners, upto - 1) + 1
    } else {
        shared_edges(owners, upto - 1)
    }
}

pub fn count_shared(owners: &Vec<Vec<usize>>) -> (r: usize)
    ensures
        r == shared_edges(owners@, owners@.len() as int),
{
    let mut count: usize = 0;
    let mut e: usize = 0;
    while e < owners.len()
        invariant
            e <= owners.len(),
            count <= e,
            count == shared_edges(owners@, e as int),
        decreases owners.len() - e,
    {
        if owners[e].len() > 1 {
            count += 1;
        }
        e += 1;
    }
    count
}

/// The vertices of a chain between two parameters.
pub open spec fn between(chain: Seq<ChainNode>, start_t: Scalar, end_t: Scalar, upto: int) -> Seq<usize>
    decreases upto,
{
    if upto <= 0 {
        Seq::empty()
    } else {
        let rest = between(chain, start_t, end_t, upto - 1);
        let node = chain[upto - 1];
        if start_t.le(node.t) && node.t.le(end_t) {
            rest.push(node.vertex)
        } else {
            rest
        }
    }
}

pub open spec fn contact_surface(contact: Contact) -> usize {
    match contact {
        Contact::Point { axis, surface, vertex, t, location } => surface,
        Contact::Interval { axis, surface, start_t, end_t, location } => surface,
    }
}

pub open spec fn contact_vertices(contact: Contact, chains: Seq<Vec<ChainNode>>) -> Seq<usize> {
    match contact {
        Contact::Point { axis, surface, vertex, t, location } => seq![vertex],
        Contact::Interval { axis, surface, start_t, end_t, location } => between(
            chains[axis as int]@,
            start_t,
            end_t,
            chains[axis as int]@.len() as int,
        ),
    }
}

/// Vertices that may lie on an edge: those of the contacts with its owners.
pub open spec fn candidates_on(
    owners: Seq<usize>,
    contacts: Seq<Contact>,
    chains: Seq<Vec<ChainNode>>,
    upto: int,
) -> Seq<usize>
    decreases upto,
{
    if upto <= 0 {
        Seq::empty()
    } else {
        let rest = candidates_on(owners, contacts, chains, upto - 1);
        if owners.contains(contact_surface(contacts[upto - 1])) {
            rest + contact_vertices(contacts[upto - 1], chains)
        } else {
            rest
        }
    }
}

pub open spec fn contact_axes_known(contacts: Seq<Contact>, axes: int) -> bool {
    forall|c: int|
        0 <= c < contacts.len() ==> match #[trigger] contacts[c] {
            Contact::Point { axis, surface, vertex, t, location } => true,
            Contact::Interval { axis, surface, start_t, end_t, location } => axis < axes,
        }
}

/// Lists the vertices that may lie on an edge, contact by contact.
#[verifier::loop_isolation(false)]
pub fn edge_candidates(owners: &Vec<usize>, contacts: &Vec<Contact>, chains: &Vec<Vec<ChainNode>>) -> (r: Vec<
    usize,
>)
    requires
        contact_axes_known(contacts@, chains@.len() as int),
    ensures
        r@ == candidates_on(owners@, contacts@, chains@, contacts@.len() as int),
{
    let mut r: Vec<usize> = Vec::new();
    let mut c: usize = 0;
    while c < contacts.len()
        invariant
            c <= contacts.len(),
            r@ == candidates_on(owners@, contacts@, chains@, c as int),
        decreases contacts.len() - c,
    {
        let ghost start = r@;
        match contacts[c] {
            Contact::Point { axis: _, surface, vertex, t: _, location: _ } => {
                if lists_index(owners, surface) {
                    r.push(vertex);
                    assert(r@ =~= start + seq![vertex]);
                }
            },
            Contact::Interval { axis, surface, start_t, end_t, location: _ } => {
                if lists_index(owners, surface) {
                    assert(contacts@[c as int] == contacts[c as int]);
                    assert(start + Seq::<usize>::empty() =~= start);
                    let mut k: usize = 0;
                    while k < chains[axis].len()
                        invariant
                            axis < chains@.len(),
                            k <= chains@[axis as int]@.len(),
                            r@ == start + between(chains@[axis as int]@, start_t, end_t, k as int),
                        decreases chains@[axis as int]@.len() - k,
                    {
                        let node = chains[axis][k];
                        if start_t.at_most(&node.t) && node.t.at_most(&end_t) {
                            r.push(node.vertex);
                            assert(r@ =~= start + between(chains@[axis as int]@, start_t, end_t, k as int).push(node.vertex));
                        }
                        k += 1;
                    }
                }
            },
        }
        c += 1;
    }
    r
}

pub open spec fn node_total(chains: Seq<Vec<ChainNode>>, upto: int) -> nat
    decreases upto,
{
    if upto <= 0 {
        0
    } else {
        node_total(chains, upto - 1) + chains[upto - 1]@.len()
    }
}

proof fn node_total_grows(chains: Seq<Vec<ChainNode>>, a: int, b: int)
    requires
        0 <= a <= b,
    ensures
        node_total(chains, a) <= node_total(chains, b),
    decreases b - a,
{
    if a < b {
        node_total_grows(chains, a, b - 1);
    }
}

pub fn count_nodes(chains: &Vec<Vec<ChainNode>>) -> (r: usize)
    requires
        node_total(chains@, chains@.len() as int) <= usize::MAX,
    ensures
        r == node_total(chains@, chains@.len() as int),
{
    let mut total: usize = 0;
    let mut k: usize = 0;
    while k < chains.len()
        invariant
            node_total(chains@, chains@.len() as int) <= usize::MAX,
            k <= chains.len(),
            total == node_total(chains@, k as int),
        decreases chains.len() - k,
    {
        proof {
            node_total_grows(chains@, k + 1, chains@.len() as int);
        }
        total += chains[k].len();
        k += 1;
    }
    total
}

/// What was synchronized.
pub fn summarize(synchronizer: Synchronizer, owners: &Vec<Vec<usize>>, edge_chains: &Vec<Vec<ChainNode>>) -> (r: (
    Vec<Vec<ChainNode>>,
    Report,
))
    requires
        node_total(synchronizer.chains@, synchronizer.chains@.len() as int) <= usize::MAX,
        node_total(edge_chains@, edge_chains@.len() as int) <= usize::MAX,
    ensures
        r.0 == synchronizer.chains,
        r.1.shared_edge_count == shared_edges(owners@, owners@.len() as int),
        r.1.interval_contact_count == synchronizer.interval_contacts,
        r.1.synchronized_interval_endpoints == synchronizer.bindings@.len(),
        r.1.endpoint_bindings == synchronizer.bindings,
        r.1.axis_node_count == node_total(synchronizer.chains@, synchronizer.chains@.len() as int),
        r.1.edge_node_count == node_total(edge_chains@, edge_chains@.len() as int),
{
    let report = Report {
        shared_edge_count: count_shared(owners),
        interval_contact_count: synchronizer.interval_contacts,
        synchronized_interval_endpoints: synchronizer.bindings.len(),
        axis_node_count: count_nodes(&synchronizer.chains),
        edge_node_count: count_nodes(edge_chains),
        endpoint_bindings: synchronizer.bindings,
    };
    (synchronizer.chains, report)
}

/// A parameter that is drawn onto its axis lies between the ends; one that lies there stays.
pub proof fn drawn_parameters_lie_on_the_axis(t: Scalar)
    requires
        !t.nan(),
    ensures
        Scalar::spec_zero().le(clamped(t)) && clamped(t).le(Scalar::spec_one()),
        Scalar::spec_zero().le(t) && t.le(Scalar::spec_one()) ==> clamped(t) == t,
        t.lt(Scalar::spec_zero()) ==> clamped(t) == Scalar::spec_zero(),
        Scalar::spec_one().lt(t) ==> clamped(t) == Scalar::spec_one(),
        clamped(clamped(t)) == clamped(t),
{
}

/// A contact is taken only with a known surface and a known axis, at a parameter within the
/// tolerance of the axis; one over an interval only with an extent.
pub proof fn contacts_are_on_known_parts(
    surface: usize,
    axis: usize,
    start_t: Scalar,
    end_t: Scalar,
    extent: Scalar,
    surfaces: int,
    axes: int,
    band: AxisBand,
)
    ensures
        point_contact_fault(surface, axis, start_t, surfaces, axes, band) is None <==> surface < surfaces && axis < axes
            && start_t.finite() && !start_t.lt(band.low) && !band.high.lt(start_t),
        interval_contact_fault(surface, axis, start_t, end_t, extent, surfaces, axes, band) is None <==> surface < surfaces && axis < axes
            && start_t.finite() && !start_t.lt(band.low) && !band.high.lt(start_t) && end_t.finite() && !end_t.lt(band.low)
            && !band.high.lt(end_t) && !extent.le(band.tolerance),
        surface >= surfaces ==> point_contact_fault(surface, axis, start_t, surfaces, axes, band) == Some("invalid contact surface"@)
            && interval_contact_fault(surface, axis, start_t, end_t, extent, surfaces, axes, band) == Some(
            "invalid contact surface"@,
        ),
{
}

/// An axis can carry constraints exactly between known vertices and with a finite length that
/// is not zero.
pub proof fn axes_carry_constraints_over_a_length(endpoints: [usize; 2], vertices: int, length: Scalar)
    requires
        !length.nan(),
    ensures
        axis_fault(endpoints, vertices, length) is None <==> endpoints[0] < vertices && endpoints[1] < vertices && length.finite() && (
        length.lt(Scalar::spec_zero()) || Scalar::spec_zero().lt(length)),
{
}

/// A vertex goes onto an axis only where it is known and lies on it. One that is there must be
/// at its parameter, and a new one at a parameter of its own.
pub proof fn vertices_on_an_axis_are_apart(chain: Seq<ChainNode>, vertex: usize, measure: NodeMeasure)
    requires
        insertion_fault(chain, vertex, measure) is None,
        measure.gaps@.len() == chain.len(),
    ensures
        vertex < measure.vertices,
        !measure.precision.lt(measure.off_axis),
        (forall|k: int| 0 <= k < chain.len() ==> (#[trigger] chain[k]).vertex != vertex) ==> forall|k: int|
            0 <= k < chain.len() ==> !(#[trigger] measure.gaps@[k]).le(measure.tolerance),
        forall|k: int|
            0 <= k < chain.len() && (#[trigger] chain[k]).vertex == vertex && (forall|m: int|
                0 <= m < k ==> (#[trigger] chain[m]).vertex != vertex) ==> !measure.tolerance.lt(measure.gaps@[k]),
{
    assert forall|k: int|
        0 <= k < chain.len() && (#[trigger] chain[k]).vertex == vertex && (forall|m: int|
            0 <= m < k ==> (#[trigger] chain[m]).vertex != vertex) implies !measure.tolerance.lt(measure.gaps@[k]) by {
        assert(first_with_vertex(chain, vertex, k));
        assert(has_vertex(chain, vertex));
    }
    if forall|k: int| 0 <= k < chain.len() ==> (#[trigger] chain[k]).vertex != vertex {
        assert(!has_vertex(chain, vertex));
    }
}

/// An endpoint is bound to the first vertex near it; only where none is near a new one is made,
/// with the next number.
pub proof fn endpoints_take_what_is_near(chain: Seq<ChainNode>, measure: NodeMeasure, vertex: usize)
    requires
        endpoint_vertex(chain, measure, vertex),
        measure.gaps@.len() == chain.len(),
    ensures
        (exists|k: int| 0 <= k < chain.len() && (#[trigger] measure.gaps@[k]).le(measure.tolerance)) ==> exists|k: int|
            0 <= k < chain.len() && (#[trigger] chain[k]).vertex == vertex && measure.gaps@[k].le(measure.tolerance),
        (forall|k: int| 0 <= k < chain.len() ==> !(#[trigger] measure.gaps@[k]).le(measure.tolerance)) ==> vertex == measure.vertices,
{
    if some_near(measure.gaps@, measure.tolerance) {
        let k = choose|k: int| #[trigger] first_near(measure.gaps@, measure.tolerance, k) && vertex == chain[k].vertex;
        assert(chain[k].vertex == vertex);
    }
}

proof fn ring_edge_listed(surface: Surface, upto: int, r: int, k: int)
    requires
        0 <= r < upto <= surface.boundaries@.len(),
        0 <= k < surface.boundaries@[r]@.len(),
    ensures
        ring_edges(surface, upto).contains(surface.boundaries@[r]@[k].edge),
    decreases upto,
{
    let edge = surface.boundaries@[r]@[k].edge;
    let rest = ring_edges(surface, upto - 1);
    let all = ring_edges(surface, upto);
    if r < upto - 1 {
        ring_edge_listed(surface, upto - 1, r, k);
        let m = choose|m: int| 0 <= m < rest.len() && rest[m] == edge;
        assert(all[m] == edge);
    } else {
        assert(all[rest.len() + k] == edge);
    }
}

/// A surface has all edges of its rings and all its junctions.
pub proof fn surfaces_have_rings_and_junctions(surface: Surface, junctions: Seq<usize>, r: int, k: int, j: int)
    requires
        0 <= r < surface.boundaries@.len(),
        0 <= k < surface.boundaries@[r]@.len(),
        0 <= j < junctions.len(),
    ensures
        edges_of(surface, junctions).contains(surface.boundaries@[r]@[k].edge),
        edges_of(surface, junctions).contains(junctions[j]),
{
    let n = surface.boundaries@.len() as int;
    ring_edge_listed(surface, n, r, k);
    let rest = ring_edges(surface, n);
    let all = edges_of(surface, junctions);
    let m = choose|m: int| 0 <= m < rest.len() && rest[m] == surface.boundaries@[r]@[k].edge;
    assert(all[m] == rest[m]);
    assert(all[rest.len() + j] == junctions[j]);
}

/// An edge is shared exactly when it has two owners or more.
pub proof fn shared_edges_have_two_owners(owners: Seq<Vec<usize>>, upto: int)
    requires
        0 <= upto <= owners.len(),
    ensures
        shared_edges(owners, upto) == owners.take(upto).filter(|list: Vec<usize>| list@.len() >= 2).len(),
    decreases upto,
{
    reveal(Seq::filter);
    if upto > 0 {
        shared_edges_have_two_owners(owners, upto - 1);
        assert(owners.take(upto).drop_last() =~= owners.take(upto - 1));
    }
}

/// A vertex of a chain lies in an interval exactly when its parameter does, both ends included.
pub proof fn interval_vertices_lie_between(chain: Seq<ChainNode>, start_t: Scalar, end_t: Scalar, upto: int, vertex: usize)
    requires
        0 <= upto <= chain.len(),
    ensures
        between(chain, start_t, end_t, upto).contains(vertex) <==> exists|k: int|
            0 <= k < upto && (#[trigger] chain[k]).vertex == vertex && start_t.le(chain[k].t) && chain[k].t.le(end_t),
    decreases upto,
{
    if upto > 0 {
        interval_vertices_lie_between(chain, start_t, end_t, upto - 1, vertex);
        crate::ordering::pushed_contains(between(chain, start_t, end_t, upto - 1), chain[upto - 1].vertex, vertex);
    }
}

/// The vertices that may lie on an edge are those of the contacts with its owners.
pub proof fn edge_vertices_are_of_its_owners(
    owners: Seq<usize>,
    contacts: Seq<Contact>,
    chains: Seq<Vec<ChainNode>>,
    upto: int,
    vertex: usize,
)
    requires
        0 <= upto <= contacts.len(),
    ensures
        candidates_on(owners, contacts, chains, upto).contains(vertex) <==> exists|c: int|
            0 <= c < upto && owners.contains(contact_surface(#[trigger] contacts[c])) && contact_vertices(contacts[c], chains).contains(
                vertex,
            ),
    decreases upto,
{
    if upto > 0 {
        edge_vertices_are_of_its_owners(owners, contacts, chains, upto - 1, vertex);
        let rest = candidates_on(owners, contacts, chains, upto - 1);
        let more = contact_vertices(contacts[upto - 1], chains);
        let all = candidates_on(owners, contacts, chains, upto);
        if owners.contains(contact_surface(contacts[upto - 1])) {
            assert(all == rest + more);
            if rest.contains(vertex) {
                let m = choose|m: int| 0 <= m < rest.len() && rest[m] == vertex;
                assert(all[m] == vertex);
            }
            if more.contains(vertex) {
                let m = choose|m: int| 0 <= m < more.len() && more[m] == vertex;
                assert(all[rest.len() + m] == vertex);
            }
            if all.contains(vertex) {
                let m = choose|m: int| 0 <= m < all.len() && all[m] == vertex;
                if m < rest.len() {
                    assert(rest[m] == vertex);
                } else {
                    assert(more[m - rest.len()] == vertex);
                }
            }
        }
    }
}

/// The surface and the vertices of a contact.
pub proof fn contacts_have_their_surface(contact: Contact, chains: Seq<Vec<ChainNode>>)
    ensures
        contact matches Contact::Point { axis, surface, vertex, t, location } ==> contact_surface(contact) == surface
            && contact_vertices(contact, chains) == seq![vertex],
        contact matches Contact::Interval { axis, surface, start_t, end_t, location } ==> contact_surface(contact) == surface,
{
}

/// The nodes of all chains are counted.
pub proof fn chain_nodes_are_counted(chains: Seq<Vec<ChainNode>>, upto: int)
    requires
        0 <= upto <= chains.len(),
    ensures
        node_total(chains, upto) == Seq::new(upto as nat, |k: int| chains[k]@).flatten().len(),
    decreases upto,
{
    let parts = Seq::new(upto as nat, |k: int| chains[k]@);
    parts.lemma_flatten_and_flatten_alt_are_equivalent();
    if upto > 0 {
        chain_nodes_are_counted(chains, upto - 1);
        let fewer = Seq::new((upto - 1) as nat, |k: int| chains[k]@);
        fewer.lemma_flatten_and_flatten_alt_are_equivalent();
        assert(parts.drop_last() =~= fewer);
    }
}

/// A surface owns an edge exactly when the edge is on one of its rings or is a junction of it.
pub proof fn owners_have_the_edge(list: Seq<usize>, surfaces: Seq<Surface>, junctions: Seq<Vec<usize>>, edge: usize, s: usize, r: int, k: int)
    requires
        owner_list(list, surfaces, junctions, edge),
        s < surfaces.len(),
    ensures
        0 <= r < surfaces[s as int].boundaries@.len() && 0 <= k < surfaces[s as int].boundaries@[r]@.len()
            && surfaces[s as int].boundaries@[r]@[k].edge == edge ==> list.contains(s),
        junctions[s as int]@.contains(edge) ==> list.contains(s),
        list.contains(s) ==> edges_of(surfaces[s as int], junctions[s as int]@).contains(edge),
{
    let surface = surfaces[s as int];
    let own = junctions[s as int]@;
    let n = surface.boundaries@.len() as int;
    let all = edges_of(surface, own);
    assert(list.contains(s) == edge_owned(surfaces, junctions, edge, s));
    if 0 <= r < n && 0 <= k < surface.boundaries@[r]@.len() && surface.boundaries@[r]@[k].edge == edge {
        ring_edge_listed(surface, n, r, k);
        let rest = ring_edges(surface, n);
        let m = choose|m: int| 0 <= m < rest.len() && rest[m] == edge;
        assert(all[m] == edge);
    }
    if own.contains(edge) {
        let j = choose|j: int| 0 <= j < own.len() && own[j] == edge;
        assert(all[ring_edges(surface, n).len() + j] == edge);
    }
}

/// An endpoint may be bound to the vertex that is made for it.
pub proof fn new_endpoints_count_as_known(chain: Seq<ChainNode>, measure: NodeMeasure)
    requires
        forall|k: int| 0 <= k < measure.gaps@.len() ==> !(#[trigger] measure.gaps@[k]).le(measure.tolerance),
        measure.gaps@.len() == chain.len(),
        measure.vertices < usize::MAX,
        !measure.precision.lt(measure.off_axis),
        forall|k: int| 0 <= k < chain.len() ==> (#[trigger] chain[k]).vertex != measure.vertices,
    ensures
        endpoint_fault(chain, measure.vertices, measure) is None,
{
    assert(!some_near(measure.gaps@, measure.tolerance));
    assert(!has_vertex(chain, measure.vertices));
}

} // verus!
