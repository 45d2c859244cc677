//! Stable interchange contract for an external Gmsh/OpenCASCADE backend.
//!
//! The library owns engineering reconstruction and provenance. The backend
//! receives explicit 3D surface rings, axis geometry and source/property
//! ownership; it must not infer structural meaning from coordinate proximity.
use vstd::prelude::*;
use crate::input::Point;
use crate::ordering::copy_ids;
use crate::reconstruction::assembly;
use crate::reconstruction::assembly::bars;
use crate::reconstruction::recognize::SourceSpan;
use crate::reconstruction::junctions::{use_end, use_start};
use crate::reconstruction::{after, edge_key, uses_of_ring, EdgeUse, Surface as ModelSurface};
use crate::scalar::Scalar;

verus! {

pub const FORMAT: &'static str = "topo-reconstruct-gmsh-v1";

/// Coordinates are deliberately unit-agnostic. The consumer must preserve the
/// model unit; no hidden conversion is allowed.
pub const LENGTH_UNIT: &'static str = "model_unit";

#[derive(Debug, Clone, Copy)]
pub struct Policy {
    /// Numerical precision of the reconstructed topology.
    pub precision: Scalar,
    /// Engineering lower bound used by deterministic cleanup of micro-edges
    /// after meshing. This is not a Boolean fuzzy tolerance.
    pub minimum_edge: Scalar,
    /// Target surface-mesh size in model length units.
    pub target_mesh_size: Scalar,
}

impl Policy {
    pub open spec fn valid(&self) -> bool {
        &&& crate::scalar::positive(self.precision)
        &&& self.minimum_edge.finite()
        &&& self.precision.lt(self.minimum_edge)
        &&& self.target_mesh_size.finite()
        &&& self.minimum_edge.le(self.target_mesh_size)
    }

    pub fn validate(&self) -> (r: Result<(), &'static str>)
        ensures
            match r {
                Ok(_) => self.valid(),
                Err(error) => !self.valid() && error@ == "invalid Gmsh interchange policy"@,
            },
    {
        if !self.precision.is_finite() || self.precision.at_most(&Scalar::zero())
            || !self.minimum_edge.is_finite() || self.minimum_edge.at_most(&self.precision)
            || !self.target_mesh_size.is_finite() || self.target_mesh_size.less(&self.minimum_edge) {
            return Err("invalid Gmsh interchange policy");
        }
        Ok(())
    }
}

#[derive(Debug)]
pub struct Interchange {
    pub format: &'static str,
    pub length_unit: &'static str,
    pub policy: Policy,
    pub source_coverage_complete: bool,
    pub surfaces: Vec<Surface>,
    pub axes: Vec<Axis>,
    pub contacts: Vec<Contact>,
    pub blockers: Vec<String>,
}

#[derive(Debug)]
pub struct Surface {
    pub source_surface: usize,
    pub source_patch: usize,
    pub stiffness: u32,
    pub source_elements: Vec<u32>,
    /// Exterior ring first, then holes, all in global 3D coordinates.
    pub rings: Vec<Vec<Point>>,
    /// Source node of each ring vertex, so that a backend can tell a true source
    /// joint from merely coincident geometry.
    pub ring_source_nodes: Vec<Vec<u32>>,
}

#[derive(Debug)]
pub struct Axis {
    pub source_axis: usize,
    pub endpoints: [Point; 2],
    pub property_spans: Vec<PropertySpan>,
    pub anchors: Vec<AxisAnchor>,
}

#[derive(Debug, Clone, Copy)]
pub struct PropertySpan {
    pub source_element: u32,
    pub stiffness: u32,
    pub start_t: Scalar,
    pub end_t: Scalar,
}

#[derive(Debug, Clone, Copy)]
pub struct AxisAnchor {
    pub source_node: u32,
    pub t: Scalar,
    pub point: Point,
}

#[derive(Debug, Clone, Copy, PartialEq, Eq, Structural)]
pub enum ContactLocation {
    Boundary,
    Interior,
}

pub open spec fn contact_location(value: bars::Location) -> ContactLocation {
    match value {
        bars::Location::Boundary => ContactLocation::Boundary,
        bars::Location::Interior => ContactLocation::Interior,
    }
}

impl From<bars::Location> for ContactLocation {
    fn from(value: bars::Location) -> (r: ContactLocation) {
        match value {
            bars::Location::Boundary => ContactLocation::Boundary,
            bars::Location::Interior => ContactLocation::Interior,
        }
    }
}

impl vstd::std_specs::convert::FromSpecImpl<bars::Location> for ContactLocation {
    open spec fn obeys_from_spec() -> bool {
        true
    }

    open spec fn from_spec(value: bars::Location) -> ContactLocation {
        contact_location(value)
    }
}

#[derive(Debug, Clone, Copy)]
pub enum Contact {
    Point { axis: usize, surface: usize, t: Scalar, point: Point, location: ContactLocation },
    Interval {
        axis: usize,
        surface: usize,
        start_t: Scalar,
        end_t: Scalar,
        endpoints: [Point; 2],
        location: ContactLocation,
    },
}

/// The parameter lies on the axis.
pub open spec fn on_axis(t: Scalar) -> bool {
    t.finite() && !t.lt(Scalar::spec_zero()) && !Scalar::spec_one().lt(t)
}

fn is_on_axis(t: &Scalar) -> (r: bool)
    ensures
        r == on_axis(*t),
{
    t.is_finite() && !t.less(&Scalar::zero()) && !Scalar::one().less(t)
}

/// Geometry of the package that is computed from the reconstructed model.
#[derive(Debug)]
pub struct Geometry {
    /// Contours of each surface, lifted from its plane.
    pub rings: Vec<Vec<Vec<Point>>>,
    /// Length of each axis.
    pub lengths: Vec<Scalar>,
    /// For each contact its start on the axis, and its end for an interval.
    pub contacts: Vec<[Point; 2]>,
}

/// The vertex where a boundary edge starts.
pub open spec fn start_vertex(edge: [usize; 2], reversed: bool) -> usize {
    if reversed {
        edge[1]
    } else {
        edge[0]
    }
}

pub open spec fn boundary_error(
    boundary: Seq<EdgeUse>,
    edges: Seq<[usize; 2]>,
    nodes: Seq<u32>,
    from: int,
) -> Option<Seq<char>>
    decreases boundary.len() - from,
{
    if from >= boundary.len() {
        None
    } else if boundary[from].edge >= edges.len() {
        Some("invalid surface edge reference"@)
    } else if start_vertex(edges[boundary[from].edge as int], boundary[from].reversed) >= nodes.len() {
        Some("missing surface source-node provenance"@)
    } else {
        boundary_error(boundary, edges, nodes, from + 1)
    }
}

pub open spec fn rings_error(
    surface: ModelSurface,
    edges: Seq<[usize; 2]>,
    nodes: Seq<u32>,
    from: int,
) -> Option<Seq<char>>
    decreases surface.contours@.len() - from,
{
    if from >= surface.contours@.len() {
        None
    } else if surface.contours@[from]@.len() < 3 || surface.contours@[from]@.len()
        != surface.boundaries@[from]@.len() {
        Some("invalid Gmsh surface ring"@)
    } else {
        match boundary_error(surface.boundaries@[from]@, edges, nodes, 0) {
            Some(error) => Some(error),
            None => rings_error(surface, edges, nodes, from + 1),
        }
    }
}

pub open spec fn surface_error(
    surface: ModelSurface,
    planes: int,
    edges: Seq<[usize; 2]>,
    nodes: Seq<u32>,
) -> Option<Seq<char>> {
    if surface.plane >= planes {
        Some("invalid surface plane reference"@)
    } else if surface.contours@.len() != surface.boundaries@.len() {
        Some("surface contour/boundary count mismatch"@)
    } else {
        rings_error(surface, edges, nodes, 0)
    }
}

pub open spec fn surfaces_error(source: assembly::Report, from: int) -> Option<Seq<char>>
    decreases source.preview.spec_surfaces().len() - from,
{
    let surfaces = source.preview.spec_surfaces();
    if from >= surfaces.len() {
        None
    } else {
        match surface_error(
            surfaces[from],
            source.preview.spec_planes().len() as int,
            source.preview.spec_edges(),
            source.vertex_source_nodes@,
        ) {
            Some(error) => Some(error),
            None => surfaces_error(source, from + 1),
        }
    }
}

pub open spec fn anchors_known(axis: bars::Axis, vertices: int) -> bool {
    forall|k: int| 0 <= k < axis.anchors@.len() ==> (#[trigger] axis.anchors@[k]).vertex < vertices
}

pub open spec fn axis_error(axis: bars::Axis, vertices: int, length: Scalar, precision: Scalar) -> Option<
    Seq<char>,
> {
    if axis.endpoints[0] >= vertices || axis.endpoints[1] >= vertices {
        Some("invalid axis endpoint vertex"@)
    } else if length.le(precision) {
        Some("degenerate Gmsh axis"@)
    } else if !anchors_known(axis, vertices) {
        Some("invalid axis anchor vertex"@)
    } else {
        None
    }
}

pub open spec fn axes_error(source: assembly::Report, lengths: Seq<Scalar>, from: int) -> Option<Seq<char>>
    decreases source.axis_assembly.axes@.len() - from,
{
    if from >= source.axis_assembly.axes@.len() {
        None
    } else {
        match axis_error(
            source.axis_assembly.axes@[from],
            source.preview.spec_vertices().len() as int,
            lengths[from],
            source.policy.precision,
        ) {
            Some(error) => Some(error),
            None => axes_error(source, lengths, from + 1),
        }
    }
}

pub open spec fn contact_error(contact: bars::Contact, axes: int, surfaces: int) -> Option<Seq<char>> {
    match contact {
        bars::Contact::Point { axis, surface, vertex, t, location } => if axis >= axes {
            Some("invalid contact axis"@)
        } else if surface >= surfaces {
            Some("invalid contact surface"@)
        } else if !on_axis(t) {
            Some("invalid axis contact parameter"@)
        } else {
            None
        },
        bars::Contact::Interval { axis, surface, start_t, end_t, location } => if axis >= axes {
            Some("invalid contact axis"@)
        } else if surface >= surfaces || end_t.le(start_t) {
            Some("invalid interval contact"@)
        } else if !on_axis(start_t) || !on_axis(end_t) {
            Some("invalid axis contact parameter"@)
        } else {
            None
        },
    }
}

pub open spec fn contacts_error(contacts: Seq<bars::Contact>, axes: int, surfaces: int, from: int) -> Option<
    Seq<char>,
>
    decreases contacts.len() - from,
{
    if from >= contacts.len() {
        None
    } else {
        match contact_error(contacts[from], axes, surfaces) {
            Some(error) => Some(error),
            None => contacts_error(contacts, axes, surfaces, from + 1),
        }
    }
}

pub open spec fn policy_of(source: assembly::Report, target_mesh_size: Scalar) -> Policy {
    Policy {
        precision: source.policy.precision,
        minimum_edge: source.policy.minimum_edge,
        target_mesh_size,
    }
}

/// Why no package can be made; `None` where one can.
pub open spec fn package_error(source: assembly::Report, target_mesh_size: Scalar, lengths: Seq<Scalar>) -> Option<
    Seq<char>,
> {
    let surfaces = source.preview.spec_surfaces().len();
    let axes = source.axis_assembly.axes@.len();
    if !policy_of(source, target_mesh_size).valid() {
        Some("invalid Gmsh interchange policy"@)
    } else if surfaces != source.surface_source_patches@.len() || surfaces
        != source.surface_stiffness@.len() {
        Some("surface provenance arrays do not match reconstructed surfaces"@)
    } else {
        match surfaces_error(source, 0) {
            Some(error) => Some(error),
            None => match axes_error(source, lengths, 0) {
                Some(error) => Some(error),
                None => contacts_error(
                    source.axis_assembly.contacts@,
                    axes as int,
                    surfaces as int,
                    0,
                ),
            },
        }
    }
}

pub open spec fn ring_nodes(
    list: Seq<u32>,
    boundary: Seq<EdgeUse>,
    edges: Seq<[usize; 2]>,
    nodes: Seq<u32>,
) -> bool {
    &&& list.len() == boundary.len()
    &&& forall|k: int|
        0 <= k < boundary.len() ==> #[trigger] list[k] == nodes[start_vertex(
            edges[boundary[k].edge as int],
            boundary[k].reversed,
        ) as int]
}

pub open spec fn surface_packed(surface: Surface, i: int, source: assembly::Report, geometry: Geometry) -> bool {
    let model = source.preview.spec_surfaces()[i];
    &&& surface.source_surface == i
    &&& surface.source_patch == source.surface_source_patches@[i]
    &&& surface.stiffness == source.surface_stiffness@[i]
    &&& surface.source_elements@ == model.source_elements@
    &&& surface.rings@.len() == model.contours@.len()
    &&& forall|r: int|
        0 <= r < model.contours@.len() ==> (#[trigger] surface.rings@[r])@ == geometry.rings@[i]@[r]@
            && surface.rings@[r]@.len() == model.contours@[r]@.len()
    &&& surface.ring_source_nodes@.len() == model.boundaries@.len()
    &&& forall|r: int|
        0 <= r < model.boundaries@.len() ==> ring_nodes(
            (#[trigger] surface.ring_source_nodes@[r])@,
            model.boundaries@[r]@,
            source.preview.spec_edges(),
            source.vertex_source_nodes@,
        )
}

pub open spec fn span_packed(packed: PropertySpan, span: SourceSpan) -> bool {
    packed == (PropertySpan {
        source_element: span.element,
        stiffness: span.stiffness,
        start_t: span.start_t,
        end_t: span.end_t,
    })
}

pub open spec fn axis_packed(packed: Axis, axis: bars::Axis, vertices: Seq<Point>) -> bool {
    &&& packed.source_axis == axis.source_axis
    &&& packed.endpoints[0] == vertices[axis.endpoints[0] as int]
    &&& packed.endpoints[1] == vertices[axis.endpoints[1] as int]
    &&& packed.property_spans@.len() == axis.spans@.len()
    &&& forall|k: int|
        0 <= k < axis.spans@.len() ==> span_packed(#[trigger] packed.property_spans@[k], axis.spans@[k])
    &&& packed.anchors@.len() == axis.anchors@.len()
    &&& forall|k: int|
        0 <= k < axis.anchors@.len() ==> #[trigger] packed.anchors@[k] == (AxisAnchor {
            source_node: axis.anchors@[k].source_node,
            t: axis.anchors@[k].t,
            point: vertices[axis.anchors@[k].vertex as int],
        })
}

pub open spec fn contact_packed(packed: Contact, contact: bars::Contact, points: [Point; 2]) -> bool {
    match contact {
        bars::Contact::Point { axis, surface, vertex, t, location } => packed == (Contact::Point {
            axis,
            surface,
            t,
            point: points[0],
            location: contact_location(location),
        }),
        bars::Contact::Interval { axis, surface, start_t, end_t, location } => packed == (Contact::Interval {
            axis,
            surface,
            start_t,
            end_t,
            endpoints: points,
            location: contact_location(location),
        }),
    }
}

pub open spec fn surfaces_blocked(source: assembly::Report) -> bool {
    !source.all_surface_patches_built || source.issues@.len() > 0
}

pub open spec fn axes_blocked(source: assembly::Report) -> bool {
    !source.axis_assembly.all_axes_built || source.axis_assembly.issues@.len() > 0
}

pub open spec fn blockers_of(source: assembly::Report) -> Seq<Seq<char>> {
    let first = if surfaces_blocked(source) {
        seq!["unresolved_surface_assembly"@]
    } else {
        Seq::empty()
    };
    if axes_blocked(source) {
        first.push("unresolved_axis_assembly"@)
    } else {
        first
    }
}

pub open spec fn texts(list: Seq<String>) -> Seq<Seq<char>> {
    Seq::new(list.len(), |k: int| list[k]@)
}

pub open spec fn geometry_for(geometry: Geometry, source: assembly::Report) -> bool {
    &&& geometry.rings@.len() == source.preview.spec_surfaces().len()
    &&& forall|i: int|
        0 <= i < geometry.rings@.len() ==> (#[trigger] geometry.rings@[i])@.len()
            == source.preview.spec_surfaces()[i].contours@.len()
    &&& forall|i: int, r: int|
        0 <= i < geometry.rings@.len() && 0 <= r < geometry.rings@[i]@.len() ==> (#[trigger] geometry.rings@[i]@[r])@.len()
            == source.preview.spec_surfaces()[i].contours@[r]@.len()
    &&& geometry.lengths@.len() == source.axis_assembly.axes@.len()
    &&& geometry.contacts@.len() == source.axis_assembly.contacts@.len()
}

pub open spec fn packed(package: Interchange, source: assembly::Report, target_mesh_size: Scalar, geometry: Geometry) -> bool {
    &&& package.format@ == FORMAT@
    &&& package.length_unit@ == LENGTH_UNIT@
    &&& package.policy == policy_of(source, target_mesh_size)
    &&& package.surfaces@.len() == source.preview.spec_surfaces().len()
    &&& forall|i: int|
        0 <= i < package.surfaces@.len() ==> surface_packed(
            #[trigger] package.surfaces@[i],
            i,
            source,
            geometry,
        )
    &&& package.axes@.len() == source.axis_assembly.axes@.len()
    &&& forall|a: int|
        0 <= a < package.axes@.len() ==> axis_packed(
            #[trigger] package.axes@[a],
            source.axis_assembly.axes@[a],
            source.preview.spec_vertices(),
        )
    &&& package.contacts@.len() == source.axis_assembly.contacts@.len()
    &&& forall|c: int|
        0 <= c < package.contacts@.len() ==> contact_packed(
            #[trigger] package.contacts@[c],
            source.axis_assembly.contacts@[c],
            geometry.contacts@[c],
        )
    &&& texts(package.blockers@) == blockers_of(source)
    &&& package.source_coverage_complete == (package.blockers@.len() == 0)
}

fn copy_points(points: &Vec<Point>) -> (r: Vec<Point>)
    ensures
        r@ == points@,
{
    crate::reconstruction::frame::copy_points(points)
}

#[verifier::loop_isolation(false)]
fn pack_boundary(boundary: &Vec<EdgeUse>, edges: &Vec<[usize; 2]>, nodes: &Vec<u32>) -> (r: Result<
    Vec<u32>,
    &'static str,
>)
    ensures
        match r {
            Ok(list) => boundary_error(boundary@, edges@, nodes@, 0) is None && ring_nodes(
                list@,
                boundary@,
                edges@,
                nodes@,
            ),
            Err(error) => boundary_error(boundary@, edges@, nodes@, 0) == Some(error@),
        },
{
    let mut list: Vec<u32> = Vec::new();
    let mut k: usize = 0;
    while k < boundary.len()
        invariant
            k <= boundary.len(),
            list.len() == k,
            boundary_error(boundary@, edges@, nodes@, 0) == boundary_error(boundary@, edges@, nodes@, k as int),
            forall|m: int|
                0 <= m < k ==> #[trigger] list@[m] == nodes@[start_vertex(edges@[boundary@[m].edge as int], boundary@[m].reversed) as int],
        decreases boundary.len() - k,
    {
        let index: usize = boundary[k].edge;
        if index >= edges.len() {
            return Err("invalid surface edge reference");
        }
        let edge: [usize; 2] = edges[index];
        let vertex: usize = if boundary[k].reversed {
            edge[1]
        } else {
            edge[0]
        };
        if vertex >= nodes.len() {
            return Err("missing surface source-node provenance");
        }
        list.push(nodes[vertex]);
        k += 1;
    }
    Ok(list)
}

#[verifier::loop_isolation(false)]
fn pack_surfaces(source: &assembly::Report, geometry: &Geometry) -> (r: Result<Vec<Surface>, &'static str>)
    requires
        geometry_for(*geometry, *source),
        source.surface_source_patches@.len() == source.preview.spec_surfaces().len(),
        source.surface_stiffness@.len() == source.preview.spec_surfaces().len(),
    ensures
        match r {
            Ok(list) => {
                &&& surfaces_error(*source, 0) is None
                &&& list@.len() == source.preview.spec_surfaces().len()
                &&& forall|i: int|
                    0 <= i < list@.len() ==> surface_packed(#[trigger] list@[i], i, *source, *geometry)
            },
            Err(error) => surfaces_error(*source, 0) == Some(error@),
        },
{
    let model = source.preview.surfaces();
    let edges = source.preview.edges();
    let mut list: Vec<Surface> = Vec::new();
    let mut i: usize = 0;
    while i < model.len()
        invariant
            i <= model.len(),
            list.len() == i,
            surfaces_error(*source, 0) == surfaces_error(*source, i as int),
            forall|j: int| 0 <= j < i ==> surface_packed(#[trigger] list@[j], j, *source, *geometry),
        decreases model.len() - i,
    {
        let surface = &model[i];
        if surface.plane >= source.preview.planes().len() {
            return Err("invalid surface plane reference");
        }
        if surface.contours.len() != surface.boundaries.len() {
            return Err("surface contour/boundary count mismatch");
        }
        assert(geometry.rings@[i as int]@.len() == source.preview.spec_surfaces()[i as int].contours@.len());
        let mut rings: Vec<Vec<Point>> = Vec::new();
        let mut ring_source_nodes: Vec<Vec<u32>> = Vec::new();
        let mut r: usize = 0;
        while r < surface.contours.len()
            invariant
                r <= surface.contours.len(),
                rings.len() == r,
                ring_source_nodes.len() == r,
                rings_error(*surface, edges@, source.vertex_source_nodes@, 0) == rings_error(*surface, edges@, source.vertex_source_nodes@, r as int),
                forall|q: int| 0 <= q < r ==> (#[trigger] rings@[q])@ == geometry.rings@[i as int]@[q]@,
                forall|q: int|
                    0 <= q < r ==> ring_nodes((#[trigger] ring_source_nodes@[q])@, surface.boundaries@[q]@, edges@, source.vertex_source_nodes@),
            decreases surface.contours.len() - r,
        {
            if surface.contours[r].len() < 3 || surface.contours[r].len() != surface.boundaries[r].len() {
                return Err("invalid Gmsh surface ring");
            }
            match pack_boundary(&surface.boundaries[r], edges, &source.vertex_source_nodes) {
                Ok(nodes) => {
                    rings.push(copy_points(&geometry.rings[i][r]));
                    ring_source_nodes.push(nodes);
                },
                Err(error) => {
                    return Err(error);
                },
            }
            r += 1;
        }
        let packed = Surface {
            source_surface: i,
            source_patch: source.surface_source_patches[i],
            stiffness: source.surface_stiffness[i],
            source_elements: copy_ids(&surface.source_elements),
            rings,
            ring_source_nodes,
        };
        assert(surface_packed(packed, i as int, *source, *geometry));
        list.push(packed);
        i += 1;
    }
    Ok(list)
}

#[verifier::loop_isolation(false)]
fn pack_axes(source: &assembly::Report, geometry: &Geometry) -> (r: Result<Vec<Axis>, &'static str>)
    requires
        geometry_for(*geometry, *source),
    ensures
        match r {
            Ok(list) => {
                &&& axes_error(*source, geometry.lengths@, 0) is None
                &&& list@.len() == source.axis_assembly.axes@.len()
                &&& forall|a: int|
                    0 <= a < list@.len() ==> axis_packed(
                        #[trigger] list@[a],
                        source.axis_assembly.axes@[a],
                        source.preview.spec_vertices(),
                    )
            },
            Err(error) => axes_error(*source, geometry.lengths@, 0) == Some(error@),
        },
{
    let vertices = source.preview.vertices();
    let mut list: Vec<Axis> = Vec::new();
    let mut a: usize = 0;
    while a < source.axis_assembly.axes.len()
        invariant
            a <= source.axis_assembly.axes.len(),
            list.len() == a,
            axes_error(*source, geometry.lengths@, 0) == axes_error(*source, geometry.lengths@, a as int),
            forall|b: int| 0 <= b < a ==> axis_packed(#[trigger] list@[b], source.axis_assembly.axes@[b], vertices@),
        decreases source.axis_assembly.axes.len() - a,
    {
        let axis = &source.axis_assembly.axes[a];
        let first: usize = axis.endpoints[0];
        let second: usize = axis.endpoints[1];
        if first >= vertices.len() || second >= vertices.len() {
            return Err("invalid axis endpoint vertex");
        }
        if geometry.lengths[a].at_most(&source.policy.precision) {
            return Err("degenerate Gmsh axis");
        }
        let mut anchors: Vec<AxisAnchor> = Vec::new();
        let mut k: usize = 0;
        while k < axis.anchors.len()
            invariant
                k <= axis.anchors.len(),
                anchors.len() == k,
                forall|m: int| 0 <= m < k ==> (#[trigger] axis.anchors@[m]).vertex < vertices@.len(),
                forall|m: int| 0 <= m < k ==> #[trigger] anchors@[m] == (AxisAnchor {
                    source_node: axis.anchors@[m].source_node,
                    t: axis.anchors@[m].t,
                    point: vertices@[axis.anchors@[m].vertex as int],
                }),
            decreases axis.anchors.len() - k,
        {
            let anchor = axis.anchors[k];
            if anchor.vertex >= vertices.len() {
                assert(axis.anchors@[k as int].vertex >= vertices@.len());
                return Err("invalid axis anchor vertex");
            }
            anchors.push(AxisAnchor { source_node: anchor.source_node, t: anchor.t, point: vertices[anchor.vertex] });
            k += 1;
        }
        let mut property_spans: Vec<PropertySpan> = Vec::new();
        let mut k: usize = 0;
        while k < axis.spans.len()
            invariant
                k <= axis.spans.len(),
                property_spans.len() == k,
                forall|m: int| 0 <= m < k ==> span_packed(#[trigger] property_spans@[m], axis.spans@[m]),
            decreases axis.spans.len() - k,
        {
            let span = axis.spans[k];
            property_spans.push(
                PropertySpan {
                    source_element: span.element,
                    stiffness: span.stiffness,
                    start_t: span.start_t,
                    end_t: span.end_t,
                },
            );
            k += 1;
        }
        assert(anchors_known(*axis, vertices@.len() as int));
        let packed = Axis {
            source_axis: axis.source_axis,
            endpoints: [vertices[first], vertices[second]],
            property_spans,
            anchors,
        };
        assert(axis_packed(packed, *axis, vertices@));
        list.push(packed);
        a += 1;
    }
    Ok(list)
}

#[verifier::loop_isolation(false)]
fn pack_contacts(source: &assembly::Report, geometry: &Geometry, axes: usize, surfaces: usize) -> (r: Result<
    Vec<Contact>,
    &'static str,
>)
    requires
        geometry_for(*geometry, *source),
    ensures
        match r {
            Ok(list) => {
                &&& contacts_error(source.axis_assembly.contacts@, axes as int, surfaces as int, 0) is None
                &&& list@.len() == source.axis_assembly.contacts@.len()
                &&& forall|c: int|
                    0 <= c < list@.len() ==> contact_packed(
                        #[trigger] list@[c],
                        source.axis_assembly.contacts@[c],
                        geometry.contacts@[c],
                    )
            },
            Err(error) => contacts_error(
                source.axis_assembly.contacts@,
                axes as int,
                surfaces as int,
                0,
            ) == Some(error@),
        },
{
    let mut list: Vec<Contact> = Vec::new();
    let mut c: usize = 0;
    while c < source.axis_assembly.contacts.len()
        invariant
            c <= source.axis_assembly.contacts.len(),
            list.len() == c,
            contacts_error(source.axis_assembly.contacts@, axes as int, surfaces as int, 0) == contacts_error(
                source.axis_assembly.contacts@,
                axes as int,
                surfaces as int,
                c as int,
            ),
            forall|d: int| 0 <= d < c ==> contact_packed(#[trigger] list@[d], source.axis_assembly.contacts@[d], geometry.contacts@[d]),
        decreases source.axis_assembly.contacts.len() - c,
    {
        match source.axis_assembly.contacts[c] {
            bars::Contact::Point { axis, surface, vertex: _, t, location } => {
                if axis >= axes {
                    return Err("invalid contact axis");
                }
                if surface >= surfaces {
                    return Err("invalid contact surface");
                }
                if !is_on_axis(&t) {
                    return Err("invalid axis contact parameter");
                }
                list.push(
                    Contact::Point {
                        axis,
                        surface,
                        t,
                        point: geometry.contacts[c][0],
                        location: ContactLocation::from(location),
                    },
                );
            },
            bars::Contact::Interval { axis, surface, start_t, end_t, location } => {
                if axis >= axes {
                    return Err("invalid contact axis");
                }
                if surface >= surfaces || end_t.at_most(&start_t) {
                    return Err("invalid interval contact");
                }
                if !is_on_axis(&start_t) || !is_on_axis(&end_t) {
                    return Err("invalid axis contact parameter");
                }
                list.push(
                    Contact::Interval {
                        axis,
                        surface,
                        start_t,
                        end_t,
                        endpoints: geometry.contacts[c],
                        location: ContactLocation::from(location),
                    },
                );
            },
        }
        c += 1;
    }
    Ok(list)
}

/// Builds a backend-neutral geometry package from a completed assembly. No
/// topology is repaired here.
pub fn from_assembly(source: &assembly::Report, target_mesh_size: Scalar, geometry: &Geometry) -> (r: Result<
    Interchange,
    &'static str,
>)
    requires
        geometry_for(*geometry, *source),
    ensures
        match r {
            Ok(package) => package_error(*source, target_mesh_size, geometry.lengths@) is None && packed(
                package,
                *source,
                target_mesh_size,
                *geometry,
            ),
            Err(error) => package_error(*source, target_mesh_size, geometry.lengths@) == Some(error@),
        },
{
    let policy = Policy {
        precision: source.policy.precision,
        minimum_edge: source.policy.minimum_edge,
        target_mesh_size,
    };
    match policy.validate() {
        Ok(_) => {
        },
        Err(error) => {
            return Err(error);
        },
    }
    let count: usize = source.preview.surfaces().len();
    if count != source.surface_source_patches.len() || count != source.surface_stiffness.len() {
        return Err("surface provenance arrays do not match reconstructed surfaces");
    }
    let surfaces = match pack_surfaces(source, geometry) {
        Ok(surfaces) => surfaces,
        Err(error) => {
            return Err(error);
        },
    };
    let axes = match pack_axes(source, geometry) {
        Ok(axes) => axes,
        Err(error) => {
            return Err(error);
        },
    };
    let contacts = match pack_contacts(source, geometry, axes.len(), surfaces.len()) {
        Ok(contacts) => contacts,
        Err(error) => {
            return Err(error);
        },
    };
    let mut blockers: Vec<String> = Vec::new();
    if !source.all_surface_patches_built || source.issues.len() > 0 {
        blockers.push("unresolved_surface_assembly".to_string());
    }
    if !source.axis_assembly.all_axes_built || source.axis_assembly.issues.len() > 0 {
        blockers.push("unresolved_axis_assembly".to_string());
    }
    assert(texts(blockers@) =~= blockers_of(*source));
    let complete: bool = blockers.len() == 0;
    Ok(
        Interchange {
            format: FORMAT,
            length_unit: LENGTH_UNIT,
            policy,
            source_coverage_complete: complete,
            surfaces,
            axes,
            contacts,
            blockers,
        },
    )
}

/// Coverage is claimed complete only where every surface and every axis was
/// built without an issue.
pub proof fn complete_coverage_has_no_gap(
    package: Interchange,
    source: assembly::Report,
    target_mesh_size: Scalar,
    geometry: Geometry,
)
    requires
        packed(package, source, target_mesh_size, geometry),
    ensures
        package.source_coverage_complete == (source.all_surface_patches_built && source.issues@.len() == 0
            && source.axis_assembly.all_axes_built && source.axis_assembly.issues@.len() == 0),
{
    assert(texts(package.blockers@).len() == package.blockers@.len());
}

/// The node packed for each vertex of a ring is the source node of that vertex: where a
/// boundary runs round a ring of vertices, node and vertex stand at the same place.
pub proof fn ring_vertices_keep_their_nodes(
    package: Interchange,
    source: assembly::Report,
    target_mesh_size: Scalar,
    geometry: Geometry,
    i: int,
    r: int,
    ring: Seq<usize>,
)
    requires
        packed(package, source, target_mesh_size, geometry),
        0 <= i < source.preview.spec_surfaces().len(),
        0 <= r < source.preview.spec_surfaces()[i].boundaries@.len(),
        uses_of_ring(source.preview.spec_surfaces()[i].boundaries@[r]@, ring, source.preview.spec_edges()),
    ensures
        package.surfaces@[i].ring_source_nodes@[r]@ == Seq::new(
            ring.len(),
            |k: int| source.vertex_source_nodes@[ring[k] as int],
        ),
{
    let model = source.preview.spec_surfaces()[i];
    let edges = source.preview.spec_edges();
    assert(surface_packed(package.surfaces@[i], i, source, geometry));
    let list = package.surfaces@[i].ring_source_nodes@[r]@;
    let uses = model.boundaries@[r]@;
    assert(ring_nodes(list, uses, edges, source.vertex_source_nodes@));
    assert forall|k: int| 0 <= k < ring.len() implies list[k] == source.vertex_source_nodes@[ring[k] as int] by {
        assert(uses[k].edge < edges.len());
        assert(edges[uses[k].edge as int] == edge_key(ring[k], after(ring, k)));
    }
}

/// Where every use of a boundary begins at the end of the one before it, the node packed
/// for a use is the source node of that common vertex.
pub proof fn packed_nodes_stand_where_uses_meet(
    package: Interchange,
    source: assembly::Report,
    target_mesh_size: Scalar,
    geometry: Geometry,
    i: int,
    r: int,
    k: int,
)
    requires
        packed(package, source, target_mesh_size, geometry),
        0 <= i < source.preview.spec_surfaces().len(),
        0 <= r < source.preview.spec_surfaces()[i].boundaries@.len(),
        ({
            let uses = source.preview.spec_surfaces()[i].boundaries@[r]@;
            0 < k < uses.len() && use_end(source.preview.spec_edges(), uses[k - 1]) == use_start(
                source.preview.spec_edges(),
                uses[k],
            )
        }),
    ensures
        ({
            let before = source.preview.spec_surfaces()[i].boundaries@[r]@[k - 1];
            let edge = source.preview.spec_edges()[before.edge as int];
            package.surfaces@[i].ring_source_nodes@[r]@[k] == source.vertex_source_nodes@[(if before.reversed {
                edge[0]
            } else {
                edge[1]
            }) as int]
        }),
{
    assert(surface_packed(package.surfaces@[i], i, source, geometry));
    let list = package.surfaces@[i].ring_source_nodes@[r]@;
    assert(ring_nodes(
        list,
        source.preview.spec_surfaces()[i].boundaries@[r]@,
        source.preview.spec_edges(),
        source.vertex_source_nodes@,
    ));
    assert(list[k] == source.vertex_source_nodes@[use_start(
        source.preview.spec_edges(),
        source.preview.spec_surfaces()[i].boundaries@[r]@[k],
    ) as int]);
}

/// A package says of each surface where it comes from, and keeps all its contours.
pub proof fn packed_surfaces_keep_their_sources(
    package: Interchange,
    source: assembly::Report,
    target_mesh_size: Scalar,
    geometry: Geometry,
    i: int,
)
    requires
        packed(package, source, target_mesh_size, geometry),
        0 <= i < source.preview.spec_surfaces().len(),
    ensures
        package.surfaces@.len() == source.preview.spec_surfaces().len(),
        package.surfaces@[i].source_surface == i,
        package.surfaces@[i].source_patch == source.surface_source_patches@[i],
        package.surfaces@[i].stiffness == source.surface_stiffness@[i],
        package.surfaces@[i].source_elements@ == source.preview.spec_surfaces()[i].source_elements@,
        package.surfaces@[i].rings@.len() == source.preview.spec_surfaces()[i].contours@.len(),
        forall|r: int|
            0 <= r < source.preview.spec_surfaces()[i].contours@.len() ==> (#[trigger] package.surfaces@[i].rings@[r])@
                == geometry.rings@[i]@[r]@,
{
    assert(surface_packed(package.surfaces@[i], i, source, geometry));
}

/// A packed axis runs between the places of its vertices, in their order. Its spans and
/// its anchors are those of the assembled axis, each anchor at the place of its vertex.
pub proof fn packed_axes_run_as_assembled(
    package: Interchange,
    source: assembly::Report,
    target_mesh_size: Scalar,
    geometry: Geometry,
    a: int,
)
    requires
        packed(package, source, target_mesh_size, geometry),
        0 <= a < source.axis_assembly.axes@.len(),
    ensures
        package.axes@.len() == source.axis_assembly.axes@.len(),
        package.axes@[a].source_axis == source.axis_assembly.axes@[a].source_axis,
        forall|e: int|
            0 <= e < 2 ==> #[trigger] package.axes@[a].endpoints[e]
                == source.preview.spec_vertices()[source.axis_assembly.axes@[a].endpoints[e] as int],
        package.axes@[a].property_spans@.len() == source.axis_assembly.axes@[a].spans@.len(),
        forall|k: int|
            0 <= k < source.axis_assembly.axes@[a].spans@.len() ==> {
                let span = source.axis_assembly.axes@[a].spans@[k];
                let kept = #[trigger] package.axes@[a].property_spans@[k];
                kept.source_element == span.element && kept.stiffness == span.stiffness && kept.start_t == span.start_t
                    && kept.end_t == span.end_t
            },
        package.axes@[a].anchors@.len() == source.axis_assembly.axes@[a].anchors@.len(),
        forall|k: int|
            0 <= k < source.axis_assembly.axes@[a].anchors@.len() ==> {
                let anchor = source.axis_assembly.axes@[a].anchors@[k];
                let kept = #[trigger] package.axes@[a].anchors@[k];
                kept.source_node == anchor.source_node && kept.t == anchor.t && kept.point
                    == source.preview.spec_vertices()[anchor.vertex as int]
            },
{
    assert(axis_packed(package.axes@[a], source.axis_assembly.axes@[a], source.preview.spec_vertices()));
    let packed = package.axes@[a];
    let axis = source.axis_assembly.axes@[a];
    assert forall|k: int| 0 <= k < axis.spans@.len() implies span_packed(#[trigger] packed.property_spans@[k], axis.spans@[k]) by {}
}

/// The axis and the surface that meet in a contact.
pub open spec fn meeting(contact: Contact) -> (usize, usize) {
    match contact {
        Contact::Point { axis, surface, t, point, location } => (axis, surface),
        Contact::Interval { axis, surface, start_t, end_t, endpoints, location } => (axis, surface),
    }
}

/// The stretch of the axis that a contact covers, from its start to its end.
pub open spec fn stretch(contact: Contact) -> (Scalar, Scalar) {
    match contact {
        Contact::Point { axis, surface, t, point, location } => (t, t),
        Contact::Interval { axis, surface, start_t, end_t, endpoints, location } => (start_t, end_t),
    }
}

pub open spec fn inner_contact(contact: Contact) -> bool {
    match contact {
        Contact::Point { axis, surface, t, point, location } => location == ContactLocation::Interior,
        Contact::Interval { axis, surface, start_t, end_t, endpoints, location } => location == ContactLocation::Interior,
    }
}

/// A packed contact joins the axis and the surface that the assembled one joins, over the
/// same stretch of the axis, on the boundary or inside as that does. Its place is the
/// measured one.
pub proof fn packed_contacts_join_the_same(
    package: Interchange,
    source: assembly::Report,
    target_mesh_size: Scalar,
    geometry: Geometry,
    c: int,
)
    requires
        packed(package, source, target_mesh_size, geometry),
        0 <= c < source.axis_assembly.contacts@.len(),
    ensures
        package.contacts@.len() == source.axis_assembly.contacts@.len(),
        match source.axis_assembly.contacts@[c] {
            bars::Contact::Point { axis, surface, vertex, t, location } => {
                &&& meeting(package.contacts@[c]) == (axis, surface)
                &&& stretch(package.contacts@[c]) == (t, t)
                &&& inner_contact(package.contacts@[c]) <==> location is Interior
                &&& package.contacts@[c] matches Contact::Point { point, .. } && point == geometry.contacts@[c][0]
            },
            bars::Contact::Interval { axis, surface, start_t, end_t, location } => {
                &&& meeting(package.contacts@[c]) == (axis, surface)
                &&& stretch(package.contacts@[c]) == (start_t, end_t)
                &&& inner_contact(package.contacts@[c]) <==> location is Interior
                &&& package.contacts@[c] matches Contact::Interval { endpoints, .. } && endpoints[0]
                    == geometry.contacts@[c][0] && endpoints[1] == geometry.contacts@[c][1]
            },
        },
{
    assert(contact_packed(package.contacts@[c], source.axis_assembly.contacts@[c], geometry.contacts@[c]));
}

proof fn boundary_without_error(boundary: Seq<EdgeUse>, edges: Seq<[usize; 2]>, nodes: Seq<u32>, from: int, k: int)
    requires
        boundary_error(boundary, edges, nodes, from) is None,
        0 <= from <= k < boundary.len(),
    ensures
        boundary[k].edge < edges.len(),
        start_vertex(edges[boundary[k].edge as int], boundary[k].reversed) < nodes.len(),
    decreases k - from,
{
    if from < k {
        boundary_without_error(boundary, edges, nodes, from + 1, k);
    }
}

proof fn rings_without_error(surface: ModelSurface, edges: Seq<[usize; 2]>, nodes: Seq<u32>, from: int, r: int)
    requires
        rings_error(surface, edges, nodes, from) is None,
        0 <= from <= r < surface.contours@.len(),
    ensures
        surface.contours@[r]@.len() >= 3,
        surface.contours@[r]@.len() == surface.boundaries@[r]@.len(),
        boundary_error(surface.boundaries@[r]@, edges, nodes, 0) is None,
    decreases r - from,
{
    if from < r {
        rings_without_error(surface, edges, nodes, from + 1, r);
    }
}

proof fn surfaces_without_error(source: assembly::Report, from: int, i: int)
    requires
        surfaces_error(source, from) is None,
        0 <= from <= i < source.preview.spec_surfaces().len(),
    ensures
        surface_error(
            source.preview.spec_surfaces()[i],
            source.preview.spec_planes().len() as int,
            source.preview.spec_edges(),
            source.vertex_source_nodes@,
        ) is None,
    decreases i - from,
{
    if from < i {
        surfaces_without_error(source, from + 1, i);
    }
}

/// Rings of a package have three points or more, a node for each point, and lie in a known
/// plane on known edges.
pub proof fn packed_rings_are_sound(
    source: assembly::Report,
    target_mesh_size: Scalar,
    lengths: Seq<Scalar>,
    i: int,
    r: int,
    k: int,
)
    requires
        package_error(source, target_mesh_size, lengths) is None,
        0 <= i < source.preview.spec_surfaces().len(),
        0 <= r < source.preview.spec_surfaces()[i].contours@.len(),
        0 <= k < source.preview.spec_surfaces()[i].contours@[r]@.len(),
    ensures
        source.preview.spec_surfaces()[i].plane < source.preview.spec_planes().len(),
        source.preview.spec_surfaces()[i].contours@[r]@.len() >= 3,
        source.preview.spec_surfaces()[i].boundaries@.len() == source.preview.spec_surfaces()[i].contours@.len(),
        source.preview.spec_surfaces()[i].boundaries@[r]@.len() == source.preview.spec_surfaces()[i].contours@[r]@.len(),
        source.preview.spec_surfaces()[i].boundaries@[r]@[k].edge < source.preview.spec_edges().len(),
        use_start(source.preview.spec_edges(), source.preview.spec_surfaces()[i].boundaries@[r]@[k])
            < source.vertex_source_nodes@.len(),
{
    let surface = source.preview.spec_surfaces()[i];
    let edges = source.preview.spec_edges();
    surfaces_without_error(source, 0, i);
    rings_without_error(surface, edges, source.vertex_source_nodes@, 0, r);
    boundary_without_error(surface.boundaries@[r]@, edges, source.vertex_source_nodes@, 0, k);
}

proof fn axes_without_error(source: assembly::Report, lengths: Seq<Scalar>, from: int, a: int)
    requires
        axes_error(source, lengths, from) is None,
        0 <= from <= a < source.axis_assembly.axes@.len(),
    ensures
        axis_error(
            source.axis_assembly.axes@[a],
            source.preview.spec_vertices().len() as int,
            lengths[a],
            source.policy.precision,
        ) is None,
    decreases a - from,
{
    if from < a {
        axes_without_error(source, lengths, from + 1, a);
    }
}

/// Axes of a package run between known vertices, are longer than the precision and have
/// all their anchors at known vertices.
pub proof fn packed_axes_are_sound(source: assembly::Report, target_mesh_size: Scalar, lengths: Seq<Scalar>, a: int)
    requires
        package_error(source, target_mesh_size, lengths) is None,
        0 <= a < source.axis_assembly.axes@.len(),
    ensures
        source.axis_assembly.axes@[a].endpoints[0] < source.preview.spec_vertices().len(),
        source.axis_assembly.axes@[a].endpoints[1] < source.preview.spec_vertices().len(),
        !lengths[a].le(source.policy.precision),
        forall|k: int|
            0 <= k < source.axis_assembly.axes@[a].anchors@.len() ==> (#[trigger] source.axis_assembly.axes@[a].anchors@[k]).vertex
                < source.preview.spec_vertices().len(),
{
    axes_without_error(source, lengths, 0, a);
    assert(anchors_known(source.axis_assembly.axes@[a], source.preview.spec_vertices().len() as int));
}

proof fn contacts_without_error(contacts: Seq<bars::Contact>, axes: int, surfaces: int, from: int, c: int)
    requires
        contacts_error(contacts, axes, surfaces, from) is None,
        0 <= from <= c < contacts.len(),
    ensures
        contact_error(contacts[c], axes, surfaces) is None,
    decreases c - from,
{
    if from < c {
        contacts_without_error(contacts, axes, surfaces, from + 1, c);
    }
}

/// Contacts of a package join a known axis and a known surface, between the start and the
/// end of the axis. Those over an interval go forward.
pub proof fn packed_contacts_are_sound(
    package: Interchange,
    source: assembly::Report,
    target_mesh_size: Scalar,
    geometry: Geometry,
    c: int,
)
    requires
        package_error(source, target_mesh_size, geometry.lengths@) is None,
        packed(package, source, target_mesh_size, geometry),
        0 <= c < package.contacts@.len(),
    ensures
        meeting(package.contacts@[c]).0 < package.axes@.len(),
        meeting(package.contacts@[c]).1 < package.surfaces@.len(),
        Scalar::spec_zero().le(stretch(package.contacts@[c]).0),
        stretch(package.contacts@[c]).1.le(Scalar::spec_one()),
        package.contacts@[c] is Interval ==> !stretch(package.contacts@[c]).1.le(stretch(package.contacts@[c]).0),
{
    contacts_without_error(
        source.axis_assembly.contacts@,
        source.axis_assembly.axes@.len() as int,
        source.preview.spec_surfaces().len() as int,
        0,
        c,
    );
    assert(contact_packed(package.contacts@[c], source.axis_assembly.contacts@[c], geometry.contacts@[c]));
}

/// The sizes of a package are in order: the precision is above zero and below the shortest
/// edge, and elements are no smaller than that. They are the sizes of the assembly.
pub proof fn package_sizes_are_in_order(source: assembly::Report, target_mesh_size: Scalar, lengths: Seq<Scalar>)
    requires
        package_error(source, target_mesh_size, lengths) is None,
    ensures
        Scalar::spec_zero().lt(source.policy.precision),
        source.policy.precision.lt(source.policy.minimum_edge),
        source.policy.minimum_edge.le(target_mesh_size),
        target_mesh_size.finite(),
        policy_of(source, target_mesh_size).precision == source.policy.precision,
        policy_of(source, target_mesh_size).minimum_edge == source.policy.minimum_edge,
        policy_of(source, target_mesh_size).target_mesh_size == target_mesh_size,
{
}

} // verus!
