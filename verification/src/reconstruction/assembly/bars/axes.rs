//! Accepted axes, their vertices and their contacts with the surfaces.
use vstd::prelude::*;
use crate::input::Point;
use crate::ordering::{copy_indices, distinct_last, last_place, last_places, lists_distinct, unique_indices};
use crate::reconstruction::assembly::bars::joints::{find_joint, joints_sorted, unavailable_reason, unavailable_text, Joint, JointState};
use crate::reconstruction::assembly::bars::{anchor_order, measured_for, ordered_nodes, point_finite, proposal_failure, propose, spans_rebuilt, first_anchor_failure, Anchor, Axis, AxisMeasure, Contact, Interval, Issue, Location, RejectedAnchor, Report};

use crate::reconstruction::assembly::Policy;
use crate::reconstruction::frame;
use crate::reconstruction::recognize::SourceSpan;
use crate::reconstruction::Model;
use crate::registry::Registry;
use crate::scalar::Scalar;

verus! {

/// Where a point lies with respect to a built surface.
#[derive(Debug, Clone, Copy)]
pub struct Placement {
    pub distance: Scalar,
    pub location: Option<Location>,
}

/// An axis with respect to a surface that one of its anchors lies on.
#[derive(Debug)]
pub struct Stretch {
    pub start_offset: Scalar,
    pub end_offset: Scalar,
    pub intervals: Vec<Interval>,
}

/// A measured axis; its anchors by ascending source parameter.
#[derive(Debug)]
pub struct AxisTrial {
    pub order: Vec<usize>,
    pub nodes: Vec<u32>,
    pub measure: AxisMeasure,
    /// For each anchor, its placement on each surface of its joint.
    pub placements: Vec<Vec<Placement>>,
    /// One for each surface that an anchor lies on, ascending.
    pub stretches: Vec<Stretch>,
}

/// The last place of a value among the first ones.
pub open spec fn last_index(values: Seq<u32>, value: u32, upto: int) -> int
    decreases upto,
{
    if upto <= 0 {
        -1
    } else if values[upto - 1] == value {
        upto - 1
    } else {
        last_index(values, value, upto - 1)
    }
}

proof fn last_index_is(values: Seq<u32>, value: u32, i: int, upto: int)
    requires
        last_place(values, value, i),
        i < upto <= values.len(),
    ensures
        last_index(values, value, upto) == i,
    decreases upto,
{
    if upto - 1 != i {
        last_index_is(values, value, i, upto - 1);
    }
}

pub open spec fn owned_surfaces(joints: Seq<Joint>, node: u32) -> Seq<usize> {
    if exists|j: int| 0 <= j < joints.len() && (#[trigger] joints[j]).node == node {
        joints[choose|j: int| 0 <= j < joints.len() && (#[trigger] joints[j]).node == node].surfaces@
    } else {
        Seq::empty()
    }
}

pub fn surfaces_at_node(joints: &Vec<Joint>, node: u32) -> (r: Vec<usize>)
    requires
        joints_sorted(joints@),
    ensures
        r@ == owned_surfaces(joints@, node),
{
    match find_joint(joints, node) {
        Some(j) => {
            proof {
                assert(joints@[j as int].node == node);
                let i = choose|i: int| 0 <= i < joints@.len() && (#[trigger] joints@[i]).node == node;
                assert(i == j);
            }
            copy_indices(&joints[j].surfaces)
        },
        None => Vec::new(),
    }
}

pub open spec fn placed_outside(placement: Placement, precision: Scalar) -> bool {
    precision.lt(placement.distance) || placement.location is None
}

pub open spec fn outside_somewhere(placements: Seq<Placement>, count: int, precision: Scalar) -> bool {
    exists|m: int| 0 <= m < count && placed_outside(#[trigger] placements[m], precision)
}

/// The least node that lies outside a surface of its joint.
pub open spec fn first_outside(
    ids: Seq<u32>,
    nodes: Seq<u32>,
    joints: Seq<Joint>,
    placements: Seq<Vec<Placement>>,
    precision: Scalar,
    from: int,
) -> Option<u32>
    decreases ids.len() - from,
{
    if from >= ids.len() {
        None
    } else {
        let place = last_index(nodes, ids[from], nodes.len() as int);
        if outside_somewhere(
            placements[place]@,
            owned_surfaces(joints, ids[from]).len() as int,
            precision,
        ) {
            Some(ids[from])
        } else {
            first_outside(ids, nodes, joints, placements, precision, from + 1)
        }
    }
}

/// Why a measured axis is refused: as a proposal, or because an anchor lies
/// outside a surface of its joint.
pub open spec fn trial_refused(
    source: frame::Report,
    axis: frame::Axis,
    trial: AxisTrial,
    ids: Seq<u32>,
    joints: Seq<Joint>,
    states: Seq<JointState>,
    policy: Policy,
) -> Option<(Seq<char>, Seq<u32>)> {
    match proposal_failure(source, axis, trial.nodes@, trial.measure, joints, states, policy) {
        Some(failure) => Some(failure),
        None => match first_outside(
            ids,
            trial.nodes@,
            joints,
            trial.placements@,
            policy.precision,
            0,
        ) {
            Some(node) => Some(("anchor_outside_source_surface"@, seq![node])),
            None => None,
        },
    }
}

/// The nodes without a vertex yet, with the points they get.
pub open spec fn new_vertices(ids: Seq<u32>, known: Seq<u32>, upto: int) -> Seq<u32>
    decreases upto,
{
    if upto <= 0 {
        Seq::empty()
    } else if known.contains(ids[upto - 1]) {
        new_vertices(ids, known, upto - 1)
    } else {
        new_vertices(ids, known, upto - 1).push(ids[upto - 1])
    }
}

pub open spec fn points_of(ids: Seq<u32>, trial: AxisTrial) -> Seq<Point> {
    Seq::new(
        ids.len(),
        |k: int| trial.measure.anchors@[last_index(trial.nodes@, ids[k], trial.nodes@.len() as int)].point,
    )
}

pub open spec fn movement_over(start: Scalar, ids: Seq<u32>, trial: AxisTrial, upto: int) -> Scalar
    decreases upto,
{
    if upto <= 0 {
        start
    } else {
        let rest = movement_over(start, ids, trial, upto - 1);
        let here = trial.measure.anchors@[last_index(
            trial.nodes@,
            ids[upto - 1],
            trial.nodes@.len() as int,
        )].from_candidate;
        if rest.lt(here) {
            here
        } else {
            rest
        }
    }
}

pub open spec fn contact_at(
    axis: usize,
    node: u32,
    m: int,
    trial: AxisTrial,
    joints: Seq<Joint>,
    vertices: Seq<u32>,
) -> Contact {
    let place = last_index(trial.nodes@, node, trial.nodes@.len() as int);
    Contact::Point {
        axis,
        surface: owned_surfaces(joints, node)[m],
        vertex: last_index(vertices, node, vertices.len() as int) as usize,
        t: trial.measure.anchors@[place].parameter,
        location: trial.placements@[place]@[m].location->0,
    }
}

pub open spec fn contacts_at(
    axis: usize,
    node: u32,
    trial: AxisTrial,
    joints: Seq<Joint>,
    vertices: Seq<u32>,
) -> Seq<Contact> {
    Seq::new(
        owned_surfaces(joints, node).len(),
        |m: int| contact_at(axis, node, m, trial, joints, vertices),
    )
}

/// A contact for each anchor and each surface of its joint.
pub open spec fn point_contacts(
    axis: usize,
    anchors: Seq<frame::Anchor>,
    node_ids: Seq<u32>,
    trial: AxisTrial,
    joints: Seq<Joint>,
    vertices: Seq<u32>,
    upto: int,
) -> Seq<Contact>
    decreases upto,
{
    if upto <= 0 {
        Seq::empty()
    } else {
        point_contacts(axis, anchors, node_ids, trial, joints, vertices, upto - 1) + contacts_at(
            axis,
            node_ids[anchors[upto - 1].node as int],
            trial,
            joints,
            vertices,
        )
    }
}

pub open spec fn interval_contact(axis: usize, surface: usize, interval: Interval) -> Contact {
    Contact::Interval {
        axis,
        surface,
        start_t: interval.start_t,
        end_t: interval.end_t,
        location: interval.location,
    }
}

pub open spec fn stretch_contacts(axis: usize, surface: usize, stretch: Stretch, precision: Scalar) -> Seq<Contact> {
    if stretch.start_offset.le(precision) && stretch.end_offset.le(precision) {
        Seq::new(
            stretch.intervals@.len(),
            |k: int| interval_contact(axis, surface, stretch.intervals@[k]),
        )
    } else {
        Seq::empty()
    }
}

/// The stretches of the axis on the surfaces that it lies in.
pub open spec fn interval_contacts(
    axis: usize,
    touched: Seq<usize>,
    stretches: Seq<Stretch>,
    precision: Scalar,
    upto: int,
) -> Seq<Contact>
    decreases upto,
{
    if upto <= 0 {
        Seq::empty()
    } else {
        interval_contacts(axis, touched, stretches, precision, upto - 1) + stretch_contacts(
            axis,
            touched[upto - 1],
            stretches[upto - 1],
            precision,
        )
    }
}

/// The surface belongs to a joint of one of the nodes.
pub open spec fn touches_surface(nodes: Seq<u32>, joints: Seq<Joint>, s: usize) -> bool {
    exists|k: int|
        0 <= k < nodes.len() && owned_surfaces(joints, #[trigger] nodes[k]).contains(s)
}

pub open spec fn touched_by(touched: Seq<usize>, nodes: Seq<u32>, joints: Seq<Joint>) -> bool {
    &&& crate::ordering::ascending_indices(touched)
    &&& forall|s: usize| #[trigger] touched.contains(s) <==> touches_surface(nodes, joints, s)
}

/// The surfaces that the anchors at the nodes lie on, ascending.
#[verifier::loop_isolation(false)]
pub fn touched_surfaces(nodes: &Vec<u32>, joints: &Vec<Joint>) -> (r: Vec<usize>)
    requires
        joints_sorted(joints@),
    ensures
        touched_by(r@, nodes@, joints@),
{
    let mut all: Vec<usize> = Vec::new();
    let mut k: usize = 0;
    while k < nodes.len()
        invariant
            k <= nodes.len(),
            forall|i: int| 0 <= i < all@.len() ==> touches_surface(nodes@, joints@, #[trigger] all@[i]),
            forall|i: int, s: usize| 0 <= i < k && owned_surfaces(joints@, #[trigger] nodes@[i]).contains(s) ==> #[trigger] all@.contains(s),
        decreases nodes.len() - k,
    {
        let surfaces = surfaces_at_node(joints, nodes[k]);
        let ghost start = all@;
        let mut m: usize = 0;
        while m < surfaces.len()
            invariant
                m <= surfaces.len(),
                all@ == start + surfaces@.take(m as int),
            decreases surfaces.len() - m,
        {
            all.push(surfaces[m]);
            assert(surfaces@.take(m + 1) =~= surfaces@.take(m as int).push(surfaces@[m as int]));
            assert(all@ =~= start + surfaces@.take(m + 1));
            m += 1;
        }
        proof {
            assert(surfaces@.take(m as int) =~= surfaces@);
            assert forall|i: int| 0 <= i < all@.len() implies touches_surface(nodes@, joints@, #[trigger] all@[i]) by {
                if i < start.len() {
                    assert(all@[i] == start[i]);
                } else {
                    assert(surfaces@[i - start.len()] == all@[i]);
                    assert(owned_surfaces(joints@, nodes@[k as int]).contains(all@[i]));
                }
            }
            assert forall|i: int, s: usize| 0 <= i < k + 1 && owned_surfaces(joints@, #[trigger] nodes@[i]).contains(s) implies #[trigger] all@.contains(s) by {
                if i < k {
                    assert(start.contains(s));
                    let m = choose|m: int| 0 <= m < start.len() && start[m] == s;
                    assert(all@[m] == s);
                } else {
                    let m = choose|m: int| 0 <= m < surfaces@.len() && surfaces@[m] == s;
                    assert(all@[start.len() + m] == s);
                }
            }
        }
        k += 1;
    }
    let ghost listed = all@;
    let r = unique_indices(all);
    assert forall|s: usize| #[trigger] r@.contains(s) <==> touches_surface(nodes@, joints@, s) by {
        assert(r@.contains(s) <==> listed.contains(s));
        if listed.contains(s) {
            let i = choose|i: int| 0 <= i < listed.len() && listed[i] == s;
            assert(touches_surface(nodes@, joints@, listed[i]));
        }
        if touches_surface(nodes@, joints@, s) {
            let i = choose|i: int| 0 <= i < nodes@.len() && owned_surfaces(joints@, #[trigger] nodes@[i]).contains(s);
            assert(owned_surfaces(joints@, nodes@[i]).contains(s));
        }
    }
    r
}

pub open spec fn axis_rebuilt(
    built: Axis,
    source_axis: usize,
    axis: frame::Axis,
    node_ids: Seq<u32>,
    trial: AxisTrial,
    vertices: Seq<u32>,
) -> bool {
    let count = trial.nodes@.len() as int;
    &&& built.source_axis == source_axis
    &&& built.endpoints[0] == last_index(vertices, node_ids[axis.endpoints[0] as int], vertices.len() as int)
    &&& built.endpoints[1] == last_index(vertices, node_ids[axis.endpoints[1] as int], vertices.len() as int)
    &&& built.anchors@.len() == axis.anchors@.len()
    &&& forall|k: int|
        0 <= k < axis.anchors@.len() ==> {
            let node = node_ids[axis.anchors@[k].node as int];
            #[trigger] built.anchors@[k] == (Anchor {
                source_node: node,
                vertex: last_index(vertices, node, vertices.len() as int) as usize,
                t: trial.measure.anchors@[last_index(trial.nodes@, node, count)].parameter,
            })
        }
    &&& spans_rebuilt(built.spans@, axis.spans@, trial.order@, axis.anchors@, trial.measure.anchors@)
}

pub open spec fn elements_of(elements: Seq<u32>, spans: Seq<SourceSpan>) -> bool {
    &&& elements.len() == spans.len()
    &&& forall|k: int| 0 <= k < spans.len() ==> #[trigger] elements[k] == spans[k].element
}

pub open spec fn finds_vertices(vertices: Map<u64, usize>, nodes: Seq<u32>) -> bool {
    &&& forall|i: int|
        0 <= i < nodes.len() ==> vertices.dom().contains(#[trigger] nodes[i] as u64)
            && vertices[nodes[i] as u64] == i
    &&& forall|x: u32| #[trigger]
        vertices.dom().contains(x as u64) ==> nodes.contains(x)
}

/// The axes of a model under construction.
#[derive(Debug)]
pub struct AxisBuild {
    model: Model,
    vertex_source_nodes: Vec<u32>,
    vertices: Registry,
    report: Report,
}

pub open spec fn joints_fit(trial: AxisTrial, joints: Seq<Joint>) -> bool {
    &&& trial.placements@.len() == trial.nodes@.len()
    &&& forall|k: int|
        0 <= k < trial.nodes@.len() ==> (#[trigger] trial.placements@[k])@.len() >= owned_surfaces(
            joints,
            trial.nodes@[k],
        ).len()
}

/// What an axis adds when it is accepted.
pub open spec fn axis_added(
    before: AxisBuild,
    after: AxisBuild,
    source: frame::Report,
    source_axis: usize,
    trial: AxisTrial,
    ids: Seq<u32>,
    touched: Seq<usize>,
    joints: Seq<Joint>,
    policy: Policy,
) -> bool {
    let axis = source.axes@[source_axis as int];
    let known = before.spec_nodes();
    let vertices = after.spec_nodes();
    let added = new_vertices(ids, known, ids.len() as int);
    let number = before.spec_report().axes@.len() as usize;
    &&& vertices == known + added
    &&& after.spec_model().spec_vertices() == before.spec_model().spec_vertices() + points_of(added, trial)
    &&& after.spec_model().spec_surfaces() == before.spec_model().spec_surfaces()
    &&& after.spec_model().spec_edges() == before.spec_model().spec_edges()
    &&& after.spec_model().spec_planes() == before.spec_model().spec_planes()
    &&& after.spec_report().issues@ == before.spec_report().issues@
    &&& after.spec_report().mesh_constraints_complete == before.spec_report().mesh_constraints_complete
    &&& after.spec_report().maximum_additional_movement == movement_over(
        before.spec_report().maximum_additional_movement,
        ids,
        trial,
        ids.len() as int,
    )
    &&& after.spec_report().contacts@ == before.spec_report().contacts@ + point_contacts(
        number,
        axis.anchors@,
        source.node_ids@,
        trial,
        joints,
        vertices,
        axis.anchors@.len() as int,
    ) + interval_contacts(
        number,
        touched,
        trial.stretches@,
        policy.precision,
        touched.len() as int,
    )
    &&& after.spec_report().axes@.len() == before.spec_report().axes@.len() + 1
    &&& after.spec_report().axes@.drop_last() == before.spec_report().axes@
    &&& axis_rebuilt(
        after.spec_report().axes@.last(),
        source_axis,
        axis,
        source.node_ids@,
        trial,
        vertices,
    )
}

/// A refused axis leaves one issue and nothing else.
pub open spec fn axis_refused(
    before: AxisBuild,
    after: AxisBuild,
    source_axis: usize,
    axis: frame::Axis,
    reason: Seq<char>,
    nodes: Seq<u32>,
) -> bool {
    &&& after.spec_nodes() == before.spec_nodes()
    &&& after.spec_model() == before.spec_model()
    &&& after.spec_report().axes@ == before.spec_report().axes@
    &&& after.spec_report().contacts@ == before.spec_report().contacts@
    &&& after.spec_report().mesh_constraints_complete == before.spec_report().mesh_constraints_complete
    &&& after.spec_report().maximum_additional_movement
        == before.spec_report().maximum_additional_movement
    &&& after.spec_report().issues@.len() == before.spec_report().issues@.len() + 1
    &&& after.spec_report().issues@.drop_last() == before.spec_report().issues@
    &&& after.spec_report().issues@.last().source_axis == source_axis
    &&& elements_of(after.spec_report().issues@.last().source_elements@, axis.spans@)
    &&& after.spec_report().issues@.last().source_nodes@ == nodes
    &&& after.spec_report().issues@.last().reason@ == reason
}

proof fn new_vertices_known(ids: Seq<u32>, known: Seq<u32>, upto: int, node: u32)
    requires
        0 <= upto <= ids.len(),
    ensures
        new_vertices(ids, known, upto).contains(node) <==> !known.contains(node) && exists|k: int| 0 <= k < upto && ids[k] == node,
    decreases upto,
{
    if upto > 0 {
        new_vertices_known(ids, known, upto - 1, node);
        let rest = new_vertices(ids, known, upto - 1);
        let here = ids[upto - 1];
        let all = new_vertices(ids, known, upto);
        if all.contains(node) {
            if rest.contains(node) {
                let k = choose|k: int| 0 <= k < upto - 1 && ids[k] == node;
                assert(0 <= k < upto && ids[k] == node);
            } else {
                let m = choose|m: int| 0 <= m < all.len() && all[m] == node;
                if m < rest.len() {
                    assert(rest[m] == node);
                }
                assert(node == here);
            }
        }
        if !known.contains(node) && exists|k: int| 0 <= k < upto && ids[k] == node {
            let k = choose|k: int| 0 <= k < upto && ids[k] == node;
            if k < upto - 1 {
                let m = choose|m: int| 0 <= m < rest.len() && rest[m] == node;
                assert(all[m] == node);
            } else {
                assert(all[rest.len() as int] == node);
            }
        }
    }
}

impl AxisBuild {
    pub closed spec fn spec_model(&self) -> Model {
        self.model
    }

    pub closed spec fn spec_nodes(&self) -> Seq<u32> {
        self.vertex_source_nodes@
    }

    pub closed spec fn spec_report(&self) -> Report {
        self.report
    }

    pub closed spec fn well_formed(&self) -> bool {
        &&& self.model.well_formed()
        &&& finds_vertices(self.vertices@, self.vertex_source_nodes@)
        &&& self.vertex_source_nodes@.len() == self.model.spec_vertices().len()
    }

    /// Starts from the surfaces that were built, without any axis.
    #[verifier::loop_isolation(false)]
    pub fn new(model: Model, vertex_source_nodes: Vec<u32>) -> (r: AxisBuild)
        requires
            model.well_formed(),
            crate::ordering::ascending(vertex_source_nodes@),
            vertex_source_nodes@.len() == model.spec_vertices().len(),
        ensures
            r.well_formed(),
            r.spec_model() == model,
            r.spec_nodes() == vertex_source_nodes@,
            r.spec_report().axes@.len() == 0,
            r.spec_report().contacts@.len() == 0,
            r.spec_report().issues@.len() == 0,
            r.spec_report().rejected_shared_anchors@.len() == 0,
            r.spec_report().maximum_additional_movement == Scalar::spec_zero(),
            !r.spec_report().all_axes_built,
            !r.spec_report().mesh_constraints_complete,
    {
        let mut vertices = Registry::new();
        let mut i: usize = 0;
        while i < vertex_source_nodes.len()
            invariant
                i <= vertex_source_nodes.len(),
                finds_vertices(vertices@, vertex_source_nodes@.take(i as int)),
            decreases vertex_source_nodes.len() - i,
        {
            let ghost before = vertices@;
            let ghost short = vertex_source_nodes@.take(i as int);
            let ghost long = vertex_source_nodes@.take(i + 1);
            vertices.insert(vertex_source_nodes[i] as u64, i);
            proof {
                assert forall|k: int| 0 <= k < long.len() implies vertices@.dom().contains(#[trigger] long[k] as u64) && vertices@[long[k] as u64] == k by {
                    if k < i {
                        assert(short[k] == long[k]);
                        assert(long[k] != vertex_source_nodes@[i as int]);
                    }
                }
                assert forall|x: u32| #[trigger] vertices@.dom().contains(x as u64) implies long.contains(x) by {
                    if x != vertex_source_nodes@[i as int] {
                        assert(before.dom().contains(x as u64));
                        let k = choose|k: int| 0 <= k < short.len() && short[k] == x;
                        assert(long[k] == x);
                    } else {
                        assert(long[i as int] == x);
                    }
                }
            }
            i += 1;
        }
        assert(vertex_source_nodes@.take(vertex_source_nodes.len() as int) =~= vertex_source_nodes@);
        let report = Report {
            all_axes_built: false,
            axes: Vec::new(),
            contacts: Vec::new(),
            issues: Vec::new(),
            rejected_shared_anchors: Vec::new(),
            maximum_additional_movement: Scalar::zero(),
            mesh_constraints_complete: false,
        };
        AxisBuild { model, vertex_source_nodes, vertices, report }
    }

    pub fn has_vertex(&self, node: u32) -> (r: bool)
        requires
            self.well_formed(),
        ensures
            r == self.spec_nodes().contains(node),
    {
        proof {
            if self.vertex_source_nodes@.contains(node) {
                let i = choose|i: int| 0 <= i < self.vertex_source_nodes@.len() && self.vertex_source_nodes@[i] == node;
                assert(self.vertices@.dom().contains(self.vertex_source_nodes@[i] as u64));
            }
        }
        self.vertices.contains(node as u64)
    }

    /// Where the vertex of a node lies, if it has one.
    pub fn place_of(&self, node: u32) -> (r: Option<Point>)
        requires
            self.well_formed(),
        ensures
            match r {
                Some(place) => exists|i: int|
                    0 <= i < self.spec_nodes().len() && #[trigger] self.spec_nodes()[i] == node && place
                        == self.spec_model().spec_vertices()[i],
                None => !self.spec_nodes().contains(node),
            },
    {
        if self.has_vertex(node) {
            let v = self.vertex(node);
            assert(self.spec_nodes()[v as int] == node);
            Some(self.model.vertices()[v])
        } else {
            None
        }
    }

    pub fn model(&self) -> (r: &Model)
        ensures
            *r == self.spec_model(),
    {
        &self.model
    }

    fn vertex(&self, node: u32) -> (r: usize)
        requires
            self.well_formed(),
            self.spec_nodes().contains(node),
        ensures
            r == last_index(self.spec_nodes(), node, self.spec_nodes().len() as int),
            r < self.spec_nodes().len(),
            self.spec_nodes()[r as int] == node,
    {
        let ghost nodes = self.vertex_source_nodes@;
        proof {
            let i = choose|i: int| 0 <= i < nodes.len() && nodes[i] == node;
            assert(self.vertices@.dom().contains(nodes[i] as u64));
            assert forall|j: int| i < j < nodes.len() implies nodes[j] != node by {
                assert(self.vertices@[nodes[j] as u64] == j);
            }
            assert(last_place(nodes, node, i));
            last_index_is(nodes, node, i, nodes.len() as int);
        }
        match self.vertices.get(node as u64) {
            Some(vertex) => vertex,
            None => {
                assert(false);
                0
            },
        }
    }

    fn refuse(&mut self, source_axis: usize, axis: &frame::Axis, reason: &'static str, nodes: Vec<u32>)
        requires
            old(self).well_formed(),
        ensures
            final(self).well_formed(),
            axis_refused(*old(self), *final(self), source_axis, *axis, reason@, nodes@),
            final(self).spec_report().rejected_shared_anchors == old(self).spec_report().rejected_shared_anchors,
            final(self).spec_report().mesh_constraints_complete == old(self).spec_report().mesh_constraints_complete,
    {
        let mut source_elements: Vec<u32> = Vec::new();
        let mut s: usize = 0;
        while s < axis.spans.len()
            invariant
                s <= axis.spans.len(),
                source_elements.len() == s,
                forall|k: int| 0 <= k < s ==> #[trigger] source_elements@[k] == axis.spans@[k].element,
            decreases axis.spans.len() - s,
        {
            source_elements.push(axis.spans[s].element);
            s += 1;
        }
        self.report.issues.push(
            Issue { source_axis, source_elements, source_nodes: nodes, reason: reason.to_string() },
        );
        assert(self.report.issues@.drop_last() =~= old(self).report.issues@);
    }

    /// Adds the vertices of the nodes that have none yet.
    #[verifier::loop_isolation(false)]
    fn add_vertices(&mut self, ids: &Vec<u32>, places: &Vec<usize>, trial: &AxisTrial)
        requires
            old(self).well_formed(),
            last_places(ids@, places@, trial.nodes@),
            trial.measure.anchors@.len() == trial.nodes@.len(),
            forall|k: int| 0 <= k < trial.measure.anchors@.len() ==> point_finite((#[trigger] trial.measure.anchors@[k]).point),
        ensures
            final(self).well_formed(),
            final(self).spec_nodes() == old(self).spec_nodes() + new_vertices(ids@, old(self).spec_nodes(), ids@.len() as int),
            final(self).spec_model().spec_vertices() == old(self).spec_model().spec_vertices() + points_of(
                new_vertices(ids@, old(self).spec_nodes(), ids@.len() as int),
                *trial,
            ),
            final(self).spec_model().spec_surfaces() == old(self).spec_model().spec_surfaces(),
            final(self).spec_model().spec_edges() == old(self).spec_model().spec_edges(),
            final(self).spec_model().spec_planes() == old(self).spec_model().spec_planes(),
            final(self).report.axes == old(self).report.axes,
            final(self).report.contacts == old(self).report.contacts,
            final(self).report.issues == old(self).report.issues,
            final(self).report.rejected_shared_anchors == old(self).report.rejected_shared_anchors,
            final(self).report.mesh_constraints_complete == old(self).report.mesh_constraints_complete,
            final(self).report.maximum_additional_movement == movement_over(
                old(self).report.maximum_additional_movement,
                ids@,
                *trial,
                ids@.len() as int,
            ),
    {
        let ghost start = *self;
        let ghost known = self.vertex_source_nodes@;
        assert(known + Seq::<u32>::empty() =~= known);
        assert(points_of(Seq::<u32>::empty(), *trial) =~= Seq::<Point>::empty());
        assert(start.model.spec_vertices() + Seq::<Point>::empty() =~= start.model.spec_vertices());
        let mut k: usize = 0;
        while k < ids.len()
            invariant
                k <= ids.len(),
                self.well_formed(),
                self.vertex_source_nodes@ == known + new_vertices(ids@, known, k as int),
                self.model.spec_vertices() == start.model.spec_vertices() + points_of(new_vertices(ids@, known, k as int), *trial),
                self.model.spec_surfaces() == start.model.spec_surfaces(),
                self.model.spec_edges() == start.model.spec_edges(),
                self.model.spec_planes() == start.model.spec_planes(),
                self.report.axes == start.report.axes,
                self.report.contacts == start.report.contacts,
                self.report.issues == start.report.issues,
                self.report.rejected_shared_anchors == start.report.rejected_shared_anchors,
                self.report.mesh_constraints_complete == start.report.mesh_constraints_complete,
                self.report.maximum_additional_movement == movement_over(start.report.maximum_additional_movement, ids@, *trial, k as int),
            decreases ids.len() - k,
        {
            let node: u32 = ids[k];
            assert(last_place(trial.nodes@, node, places@[k as int] as int));
            proof {
                last_index_is(trial.nodes@, node, places@[k as int] as int, trial.nodes@.len() as int);
                new_vertices_known(ids@, known, k as int, node);
                assert forall|m: int| 0 <= m < k implies ids@[m] != node by {}
            }
            let measure = &trial.measure.anchors[places[k]];
            if self.report.maximum_additional_movement.less(&measure.from_candidate) {
                self.report.maximum_additional_movement = measure.from_candidate;
            }
            let point: Point = measure.point;
            let present: bool = self.has_vertex(node);
            proof {
                let rest = new_vertices(ids@, known, k as int);
                if present {
                    let m = choose|m: int| 0 <= m < self.vertex_source_nodes@.len() && self.vertex_source_nodes@[m] == node;
                    if m < known.len() {
                        assert(known[m] == node);
                    } else {
                        assert(rest[m - known.len()] == node);
                        assert(rest.contains(node));
                    }
                    assert(known.contains(node));
                } else if known.contains(node) {
                    let m = choose|m: int| 0 <= m < known.len() && known[m] == node;
                    assert(self.vertex_source_nodes@[m] == node);
                }
            }
            if !present {
                let ghost before = self.vertices@;
                let ghost nodes = self.vertex_source_nodes@;
                let ghost points = self.model.spec_vertices();
                match self.model.add_vertex(point) {
                    Ok(vertex) => {
                        self.vertices.insert(node as u64, vertex);
                        self.vertex_source_nodes.push(node);
                        proof {
                            let all = self.vertex_source_nodes@;
                            assert forall|i: int| 0 <= i < all.len() implies self.vertices@.dom().contains(#[trigger] all[i] as u64) && self.vertices@[all[i] as u64] == i by {
                                if i < nodes.len() {
                                    assert(all[i] == nodes[i]);
                                    assert(nodes.contains(nodes[i]));
                                    assert(all[i] != node);
                                }
                            }
                            assert forall|x: u32| #[trigger] self.vertices@.dom().contains(x as u64) implies all.contains(x) by {
                                if x != node {
                                    assert(before.dom().contains(x as u64));
                                    let i = choose|i: int| 0 <= i < nodes.len() && nodes[i] == x;
                                    assert(all[i] == x);
                                } else {
                                    assert(all[nodes.len() as int] == x);
                                }
                            }
                            let rest = new_vertices(ids@, known, k as int);
                            assert(all =~= known + rest.push(node));
                            assert(points_of(rest.push(node), *trial) =~= points_of(rest, *trial).push(point));
                            assert(self.model.spec_vertices() =~= start.model.spec_vertices() + points_of(rest.push(node), *trial));
                        }
                    },
                    Err(_) => {
                        assert(false);
                    },
                }
            }
            k += 1;
        }
    }

    #[verifier::loop_isolation(false)]
    fn outside(ids: &Vec<u32>, places: &Vec<usize>, trial: &AxisTrial, joints: &Vec<Joint>, precision: &Scalar) -> (r:
        Option<u32>)
        requires
            joints_sorted(joints@),
            last_places(ids@, places@, trial.nodes@),
            joints_fit(*trial, joints@),
        ensures
            r == first_outside(ids@, trial.nodes@, joints@, trial.placements@, *precision, 0),
            r is None ==> forall|k: int, m: int|
                0 <= k < ids@.len() && 0 <= m < owned_surfaces(joints@, ids@[k]).len() ==> (#[trigger] trial.placements@[places@[k] as int]@[m]).location is Some,
    {
        let mut k: usize = 0;
        while k < ids.len()
            invariant
                k <= ids.len(),
                first_outside(ids@, trial.nodes@, joints@, trial.placements@, *precision, 0) == first_outside(ids@, trial.nodes@, joints@, trial.placements@, *precision, k as int),
                forall|i: int, m: int|
                    0 <= i < k && 0 <= m < owned_surfaces(joints@, ids@[i]).len() ==> (#[trigger] trial.placements@[places@[i] as int]@[m]).location is Some,
            decreases ids.len() - k,
        {
            let place: usize = places[k];
            proof {
                assert(last_place(trial.nodes@, ids@[k as int], place as int));
                last_index_is(trial.nodes@, ids@[k as int], place as int, trial.nodes@.len() as int);
                assert(trial.placements@[place as int]@.len() >= owned_surfaces(joints@, trial.nodes@[place as int]).len());
            }
            let count: usize = surfaces_at_node(joints, ids[k]).len();
            let mut m: usize = 0;
            while m < count
                invariant
                    m <= count,
                    count == owned_surfaces(joints@, ids@[k as int]).len(),
                    forall|i: int| 0 <= i < m ==> !placed_outside(#[trigger] trial.placements@[place as int]@[i], *precision),
                decreases count - m,
            {
                let placement = trial.placements[place][m];
                if precision.less(&placement.distance) || placement.location.is_none() {
                    assert(placed_outside(trial.placements@[place as int]@[m as int], *precision));
                    assert(outside_somewhere(trial.placements@[place as int]@, count as int, *precision));
                    return Some(ids[k]);
                }
                m += 1;
            }
            assert(!outside_somewhere(trial.placements@[place as int]@, count as int, *precision));
            assert forall|i: int, m: int|
                0 <= i < k + 1 && 0 <= m < owned_surfaces(joints@, ids@[i]).len() implies (#[trigger] trial.placements@[places@[i] as int]@[m]).location is Some by {
                if i == k {
                    assert(!placed_outside(trial.placements@[place as int]@[m], *precision));
                }
            }
            k += 1;
        }
        None
    }

    /// The contacts of the anchors with the surfaces of their joints.
    #[verifier::loop_isolation(false)]
    fn add_point_contacts(
        &mut self,
        source: &frame::Report,
        axis: &frame::Axis,
        trial: &AxisTrial,
        ids: &Vec<u32>,
        places: &Vec<usize>,
        joints: &Vec<Joint>,
        number: usize,
    )
        requires
            old(self).well_formed(),
            joints_sorted(joints@),
            joints_fit(*trial, joints@),
            last_places(ids@, places@, trial.nodes@),
            trial.measure.anchors@.len() == trial.nodes@.len(),
            forall|k: int| 0 <= k < axis.anchors@.len() ==> (#[trigger] axis.anchors@[k]).node < source.node_ids@.len()
                && trial.nodes@.contains(source.node_ids@[axis.anchors@[k].node as int]),
            forall|k: int| 0 <= k < ids@.len() ==> old(self).spec_nodes().contains(#[trigger] ids@[k]),
            forall|k: int, m: int|
                0 <= k < ids@.len() && 0 <= m < owned_surfaces(joints@, ids@[k]).len() ==> (#[trigger] trial.placements@[places@[k] as int]@[m]).location is Some,
        ensures
            final(self).well_formed(),
            final(self).spec_nodes() == old(self).spec_nodes(),
            final(self).spec_model() == old(self).spec_model(),
            final(self).report.axes == old(self).report.axes,
            final(self).report.issues == old(self).report.issues,
            final(self).report.rejected_shared_anchors == old(self).report.rejected_shared_anchors,
            final(self).report.mesh_constraints_complete == old(self).report.mesh_constraints_complete,
            final(self).report.maximum_additional_movement == old(self).report.maximum_additional_movement,
            final(self).report.contacts@ == old(self).report.contacts@ + point_contacts(
                number,
                axis.anchors@,
                source.node_ids@,
                *trial,
                joints@,
                old(self).spec_nodes(),
                axis.anchors@.len() as int,
            ),
    {
        let ghost start = *self;
        let ghost vertices = self.vertex_source_nodes@;
        assert(start.report.contacts@ + Seq::<Contact>::empty() =~= start.report.contacts@);
        let mut k: usize = 0;
        while k < axis.anchors.len()
            invariant
                k <= axis.anchors.len(),
                self.well_formed(),
                self.vertex_source_nodes@ == vertices,
                self.model == start.model,
                self.report.axes == start.report.axes,
                self.report.issues == start.report.issues,
                self.report.rejected_shared_anchors == start.report.rejected_shared_anchors,
                self.report.mesh_constraints_complete == start.report.mesh_constraints_complete,
                self.report.maximum_additional_movement == start.report.maximum_additional_movement,
                self.report.contacts@ == start.report.contacts@ + point_contacts(number, axis.anchors@, source.node_ids@, *trial, joints@, vertices, k as int),
            decreases axis.anchors.len() - k,
        {
            assert(axis.anchors@[k as int].node < source.node_ids@.len());
            let node: u32 = source.node_ids[axis.anchors[k].node];
            let slot = match crate::ordering::find_id(ids, node) {
                Some(slot) => slot,
                None => {
                    assert(ids@.contains(node) <==> trial.nodes@.contains(node));
                    assert(false);
                    0
                },
            };
            let place: usize = places[slot];
            proof {
                assert(last_place(trial.nodes@, ids@[slot as int], place as int));
                last_index_is(trial.nodes@, node, place as int, trial.nodes@.len() as int);
                assert(trial.placements@[place as int]@.len() >= owned_surfaces(joints@, trial.nodes@[place as int]).len());
                assert(vertices.contains(ids@[slot as int]));
            }
            let vertex: usize = self.vertex(node);
            let surfaces = surfaces_at_node(joints, node);
            let ghost here = self.report.contacts@;
            let ghost wanted = contacts_at(number, node, *trial, joints@, vertices);
            assert(here + wanted.take(0) =~= here);
            let mut m: usize = 0;
            while m < surfaces.len()
                invariant
                    m <= surfaces.len(),
                    self.well_formed(),
                    self.vertex_source_nodes@ == vertices,
                    self.model == start.model,
                    self.report.axes == start.report.axes,
                    self.report.issues == start.report.issues,
                    self.report.rejected_shared_anchors == start.report.rejected_shared_anchors,
                    self.report.mesh_constraints_complete == start.report.mesh_constraints_complete,
                    self.report.maximum_additional_movement == start.report.maximum_additional_movement,
                    self.report.contacts@ == here + wanted.take(m as int),
                decreases surfaces.len() - m,
            {
                assert(trial.placements@[places@[slot as int] as int]@[m as int].location is Some);
                match trial.placements[place][m].location {
                    Some(location) => {
                        let contact = Contact::Point {
                            axis: number,
                            surface: surfaces[m],
                            vertex,
                            t: trial.measure.anchors[place].parameter,
                            location,
                        };
                        self.report.contacts.push(contact);
                        proof {
                            assert(wanted[m as int] == contact);
                            assert(wanted.take(m + 1) =~= wanted.take(m as int).push(contact));
                            assert(self.report.contacts@ =~= here + wanted.take(m + 1));
                        }
                    },
                    None => {
                        assert(false);
                    },
                }
                m += 1;
            }
            proof {
                assert(wanted.take(m as int) =~= wanted);
                assert(self.report.contacts@ =~= start.report.contacts@ + (point_contacts(number, axis.anchors@, source.node_ids@, *trial, joints@, vertices, k as int) + wanted));
            }
            k += 1;
        }
    }

    #[verifier::loop_isolation(false)]
    fn add_interval_contacts(&mut self, touched: &Vec<usize>, stretches: &Vec<Stretch>, precision: &Scalar, number: usize)
        requires
            old(self).well_formed(),
            stretches@.len() >= touched@.len(),
        ensures
            final(self).well_formed(),
            final(self).spec_nodes() == old(self).spec_nodes(),
            final(self).spec_model() == old(self).spec_model(),
            final(self).report.axes == old(self).report.axes,
            final(self).report.issues == old(self).report.issues,
            final(self).report.rejected_shared_anchors == old(self).report.rejected_shared_anchors,
            final(self).report.mesh_constraints_complete == old(self).report.mesh_constraints_complete,
            final(self).report.maximum_additional_movement == old(self).report.maximum_additional_movement,
            final(self).report.contacts@ == old(self).report.contacts@ + interval_contacts(
                number,
                touched@,
                stretches@,
                *precision,
                touched@.len() as int,
            ),
    {
        let ghost start = *self;
        assert(start.report.contacts@ + Seq::<Contact>::empty() =~= start.report.contacts@);
        let mut k: usize = 0;
        while k < touched.len()
            invariant
                k <= touched.len(),
                self.well_formed(),
                self.vertex_source_nodes == start.vertex_source_nodes,
                self.model == start.model,
                self.report.axes == start.report.axes,
                self.report.issues == start.report.issues,
                self.report.rejected_shared_anchors == start.report.rejected_shared_anchors,
                self.report.mesh_constraints_complete == start.report.mesh_constraints_complete,
                self.report.maximum_additional_movement == start.report.maximum_additional_movement,
                self.report.contacts@ == start.report.contacts@ + interval_contacts(number, touched@, stretches@, *precision, k as int),
            decreases touched.len() - k,
        {
            let ghost here = self.report.contacts@;
            let ghost wanted = stretch_contacts(number, touched@[k as int], stretches@[k as int], *precision);
            if stretches[k].start_offset.at_most(precision) && stretches[k].end_offset.at_most(precision) {
                assert(here + wanted.take(0) =~= here);
                let mut m: usize = 0;
                while m < stretches[k].intervals.len()
                    invariant
                        m <= stretches@[k as int].intervals@.len(),
                        wanted.len() == stretches@[k as int].intervals@.len(),
                        self.well_formed(),
                        self.vertex_source_nodes == start.vertex_source_nodes,
                        self.model == start.model,
                        self.report.axes == start.report.axes,
                        self.report.issues == start.report.issues,
                        self.report.rejected_shared_anchors == start.report.rejected_shared_anchors,
                        self.report.mesh_constraints_complete == start.report.mesh_constraints_complete,
                        self.report.maximum_additional_movement == start.report.maximum_additional_movement,
                        self.report.contacts@ == here + wanted.take(m as int),
                    decreases stretches@[k as int].intervals@.len() - m,
                {
                    let interval = stretches[k].intervals[m];
                    let contact = Contact::Interval {
                        axis: number,
                        surface: touched[k],
                        start_t: interval.start_t,
                        end_t: interval.end_t,
                        location: interval.location,
                    };
                    self.report.contacts.push(contact);
                    proof {
                        assert(wanted[m as int] == contact);
                        assert(wanted.take(m + 1) =~= wanted.take(m as int).push(contact));
                        assert(self.report.contacts@ =~= here + wanted.take(m + 1));
                    }
                    m += 1;
                }
                assert(wanted.take(m as int) =~= wanted);
            } else {
                assert(here + wanted =~= here);
            }
            assert(self.report.contacts@ =~= start.report.contacts@ + (interval_contacts(number, touched@, stretches@, *precision, k as int) + wanted));
            k += 1;
        }
    }

    /// Takes an axis over, or reports why it cannot be built. An axis never moves
    /// a joint that was fixed before.
    #[verifier::rlimit(40)]
    #[verifier::loop_isolation(false)]
    pub fn add_axis(
        &mut self,
        source: &frame::Report,
        source_axis: usize,
        trial: &AxisTrial,
        joints: &Vec<Joint>,
        states: &Vec<JointState>,
        policy: &Policy,
    )
        requires
            old(self).well_formed(),
            source_axis < source.axes@.len(),
            joints_sorted(joints@),
            states@.len() == joints@.len(),
            joints_fit(*trial, joints@),
            anchor_order(trial.order@, source.axes@[source_axis as int].anchors@),
            ordered_nodes(
                trial.nodes@,
                trial.order@,
                source.axes@[source_axis as int].anchors@,
                source.node_ids@,
            ),
            measured_for(trial.measure, source.axes@[source_axis as int]),
            source.axes@[source_axis as int].endpoints[0] < source.node_ids@.len(),
            source.axes@[source_axis as int].endpoints[1] < source.node_ids@.len(),
            forall|k: int|
                0 <= k < source.axes@[source_axis as int].anchors@.len() ==> (
                #[trigger] source.axes@[source_axis as int].anchors@[k]).node < source.node_ids@.len(),
            forall|touched: Seq<usize>| #[trigger]
                touched_by(touched, trial.nodes@, joints@) ==> trial.stretches@.len() >= touched.len(),
        ensures
            final(self).well_formed(),
            final(self).spec_report().rejected_shared_anchors == old(self).spec_report().rejected_shared_anchors,
            final(self).spec_report().mesh_constraints_complete == old(self).spec_report().mesh_constraints_complete,
            forall|ids: Seq<u32>, touched: Seq<usize>|
                #![trigger lists_distinct(ids, trial.nodes@), touched_by(touched, trial.nodes@, joints@)]
                lists_distinct(ids, trial.nodes@) && touched_by(touched, trial.nodes@, joints@) ==> match trial_refused(
                    *source,
                    source.axes@[source_axis as int],
                    *trial,
                    ids,
                    joints@,
                    states@,
                    *policy,
                ) {
                    Some((reason, nodes)) => axis_refused(
                        *old(self),
                        *final(self),
                        source_axis,
                        source.axes@[source_axis as int],
                        reason,
                        nodes,
                    ),
                    None => axis_added(
                        *old(self),
                        *final(self),
                        *source,
                        source_axis,
                        *trial,
                        ids,
                        touched,
                        joints@,
                        *policy,
                    ),
                },
    {
        let axis = &source.axes[source_axis];
        let (ids, places) = distinct_last(&trial.nodes);
        let touched = touched_surfaces(&trial.nodes, joints);
        proof {
            assert forall|other: Seq<u32>| #[trigger] lists_distinct(other, trial.nodes@) implies other == ids@ by {
                crate::ordering::ascending_determined(other, ids@);
            }
            assert forall|other: Seq<usize>| #[trigger] touched_by(other, trial.nodes@, joints@) implies other == touched@ by {
                assert forall|s: usize| other.contains(s) <==> touched@.contains(s) by {}
                crate::ordering::ascending_indices_determined(other, touched@);
            }
        }
        let spans = match propose(source, axis, &trial.order, &trial.nodes, &trial.measure, joints, states, policy) {
            Ok(spans) => spans,
            Err((reason, nodes)) => {
                self.refuse(source_axis, axis, reason, nodes);
                return;
            },
        };
        match AxisBuild::outside(&ids, &places, trial, joints, &policy.precision) {
            Some(node) => {
                let mut here: Vec<u32> = Vec::new();
                here.push(node);
                assert(here@ =~= seq![node]);
                self.refuse(source_axis, axis, "anchor_outside_source_surface", here);
                return;
            },
            None => {
            },
        }
        let number: usize = self.report.axes.len();
        let ghost known = self.vertex_source_nodes@;
        proof {
            assert forall|k: int| 0 <= k < trial.measure.anchors@.len() implies point_finite((#[trigger] trial.measure.anchors@[k]).point) by {
                anchors_accepted(trial.measure.anchors@, trial.nodes@, joints@, states@, *policy, 0, k);
            }
        }
        self.add_vertices(&ids, &places, trial);
        let ghost vertices = self.vertex_source_nodes@;
        proof {
            assert forall|k: int| 0 <= k < ids@.len() implies vertices.contains(#[trigger] ids@[k]) by {
                let added = new_vertices(ids@, known, ids@.len() as int);
                new_vertices_known(ids@, known, ids@.len() as int, ids@[k]);
                if known.contains(ids@[k]) {
                    let m = choose|m: int| 0 <= m < known.len() && known[m] == ids@[k];
                    assert(vertices[m] == ids@[k]);
                } else {
                    assert(added.contains(ids@[k]));
                    let m = choose|m: int| 0 <= m < added.len() && added[m] == ids@[k];
                    assert(vertices[known.len() + m] == ids@[k]);
                }
            }
            assert forall|node: u32| trial.nodes@.contains(node) implies #[trigger] vertices.contains(node) by {
                assert(ids@.contains(node));
                let k = choose|k: int| 0 <= k < ids@.len() && ids@[k] == node;
                assert(vertices.contains(ids@[k]));
            }
            let keys = choose|keys: Seq<i128>| #[trigger] crate::reconstruction::assembly::bars::parameter_keys(keys, axis.anchors@) && crate::ordering::stable_order(keys, trial.order@);
            assert forall|k: int| 0 <= k < axis.anchors@.len() implies trial.nodes@.contains(source.node_ids@[(#[trigger] axis.anchors@[k]).node as int]) by {
                assert(k < axis.anchors.len() <= usize::MAX);
                assert(trial.order@.contains(k as usize));
                let m = choose|m: int| 0 <= m < trial.order@.len() && trial.order@[m] == k as usize;
                assert(trial.nodes@[m] == source.node_ids@[axis.anchors@[k].node as int]);
            }
        }
        self.add_point_contacts(source, axis, trial, &ids, &places, joints, number);
        self.add_interval_contacts(&touched, &trial.stretches, &policy.precision, number);
        let first: usize = self.vertex(source.node_ids[axis.endpoints[0]]);
        let second: usize = self.vertex(source.node_ids[axis.endpoints[1]]);
        let mut anchors: Vec<Anchor> = Vec::new();
        let mut k: usize = 0;
        while k < axis.anchors.len()
            invariant
                k <= axis.anchors.len(),
                anchors.len() == k,
                self.well_formed(),
                self.vertex_source_nodes@ == vertices,
                forall|m: int|
                    0 <= m < k ==> {
                        let node = source.node_ids@[axis.anchors@[m].node as int];
                        #[trigger] anchors@[m] == (Anchor {
                            source_node: node,
                            vertex: last_index(vertices, node, vertices.len() as int) as usize,
                            t: trial.measure.anchors@[last_index(trial.nodes@, node, trial.nodes@.len() as int)].parameter,
                        })
                    },
            decreases axis.anchors.len() - k,
        {
            assert(axis.anchors@[k as int].node < source.node_ids@.len());
            let node: u32 = source.node_ids[axis.anchors[k].node];
            assert(trial.nodes@.contains(source.node_ids@[axis.anchors@[k as int].node as int]));
            let slot = match crate::ordering::find_id(&ids, node) {
                Some(slot) => slot,
                None => {
                    assert(ids@.contains(node));
                    assert(false);
                    0
                },
            };
            let place: usize = places[slot];
            proof {
                assert(last_place(trial.nodes@, ids@[slot as int], place as int));
                last_index_is(trial.nodes@, node, place as int, trial.nodes@.len() as int);
            }
            let vertex: usize = self.vertex(node);
            anchors.push(Anchor { source_node: node, vertex, t: trial.measure.anchors[place].parameter });
            k += 1;
        }
        let ghost before = self.report.axes@;
        self.report.axes.push(Axis { source_axis, endpoints: [first, second], anchors, spans });
        proof {
            assert(self.report.axes@.drop_last() =~= before);
            assert(axis_rebuilt(self.report.axes@.last(), source_axis, *axis, source.node_ids@, *trial, vertices));
            assert(axis_added(*old(self), *self, *source, source_axis, *trial, ids@, touched@, joints@, *policy));
        }
    }

    /// Closes the report: every axis was built if no issue was left.
    #[verifier::loop_isolation(false)]
    pub fn conclude(self, joints: &Vec<Joint>, states: &Vec<JointState>) -> (r: (Model, Vec<u32>, Report))
        requires
            self.well_formed(),
            states@.len() == joints@.len(),
        ensures
            r.0 == self.spec_model(),
            r.1@ == self.spec_nodes(),
            r.2.axes == self.spec_report().axes,
            r.2.contacts == self.spec_report().contacts,
            r.2.issues == self.spec_report().issues,
            r.2.maximum_additional_movement == self.spec_report().maximum_additional_movement,
            r.2.mesh_constraints_complete == self.spec_report().mesh_constraints_complete,
            r.2.all_axes_built == (self.spec_report().issues@.len() == 0),
            rejected_nodes(r.2.rejected_shared_anchors@) == unavailable_joints(
                joints@,
                states@,
                joints@.len() as int,
            ),
    {
        let mut rejected: Vec<RejectedAnchor> = Vec::new();
        assert(rejected_nodes(rejected@) =~= Seq::<(u32, Seq<char>)>::empty());
        let mut j: usize = 0;
        while j < joints.len()
            invariant
                j <= joints.len(),
                rejected_nodes(rejected@) == unavailable_joints(joints@, states@, j as int),
            decreases joints.len() - j,
        {
            match states[j].unavailable {
                Some(reason) => {
                    let ghost before = rejected@;
                    let entry = RejectedAnchor { source_node: joints[j].node, reason: unavailable_text(reason) };
                    rejected.push(entry);
                    assert(rejected_nodes(rejected@) =~= rejected_nodes(before).push((entry.source_node, entry.reason@)));
                },
                None => {
                },
            }
            j += 1;
        }
        let report = Report {
            all_axes_built: self.report.issues.len() == 0,
            axes: self.report.axes,
            contacts: self.report.contacts,
            issues: self.report.issues,
            rejected_shared_anchors: rejected,
            maximum_additional_movement: self.report.maximum_additional_movement,
            mesh_constraints_complete: self.report.mesh_constraints_complete,
        };
        (self.model, self.vertex_source_nodes, report)
    }
}

pub open spec fn rejected_nodes(list: Seq<RejectedAnchor>) -> Seq<(u32, Seq<char>)> {
    Seq::new(list.len(), |k: int| (list[k].source_node, list[k].reason@))
}

/// The joints that no axis can be anchored at, with the reasons.
pub open spec fn unavailable_joints(joints: Seq<Joint>, states: Seq<JointState>, upto: int) -> Seq<
    (u32, Seq<char>),
>
    decreases upto,
{
    if upto <= 0 {
        Seq::empty()
    } else {
        let rest = unavailable_joints(joints, states, upto - 1);
        match states[upto - 1].unavailable {
            Some(reason) => rest.push((joints[upto - 1].node, unavailable_reason(reason))),
            None => rest,
        }
    }
}

proof fn anchors_accepted(
    measures: Seq<crate::reconstruction::assembly::bars::AnchorMeasure>,
    nodes: Seq<u32>,
    joints: Seq<Joint>,
    states: Seq<JointState>,
    policy: Policy,
    from: int,
    k: int,
)
    requires
        0 <= from <= k < nodes.len(),
        first_anchor_failure(measures, nodes, joints, states, policy, from) is None,
    ensures
        point_finite(measures[k].point),
    decreases nodes.len() - from,
{
    if from < k {
        anchors_accepted(measures, nodes, joints, states, policy, from + 1, k);
    }
}

/// A node has a place where it is listed, and none where it is not.
pub proof fn places_hold_the_value(values: Seq<u32>, value: u32)
    ensures
        values.contains(value) ==> 0 <= last_index(values, value, values.len() as int) < values.len() && values[last_index(
            values,
            value,
            values.len() as int,
        )] == value,
        !values.contains(value) ==> last_index(values, value, values.len() as int) == -1,
{
    place_holds(values, value, values.len() as int);
    if values.contains(value) {
        let k = choose|k: int| 0 <= k < values.len() && values[k] == value;
        assert(values[k] == value);
    }
}

proof fn place_holds(values: Seq<u32>, value: u32, upto: int)
    requires
        0 <= upto <= values.len(),
    ensures
        -1 <= last_index(values, value, upto) < upto,
        last_index(values, value, upto) >= 0 ==> values[last_index(values, value, upto)] == value,
        forall|k: int| last_index(values, value, upto) < k < upto ==> #[trigger] values[k] != value,
    decreases upto,
{
    if upto > 0 {
        place_holds(values, value, upto - 1);
    }
}

/// A node gets a vertex exactly when it has none yet.
pub proof fn only_new_nodes_get_vertices(ids: Seq<u32>, known: Seq<u32>, upto: int, node: u32)
    requires
        0 <= upto <= ids.len(),
    ensures
        new_vertices(ids, known, upto).contains(node) <==> ids.take(upto).contains(node) && !known.contains(node),
    decreases upto,
{
    if upto > 0 {
        only_new_nodes_get_vertices(ids, known, upto - 1, node);
        assert(ids.take(upto) =~= ids.take(upto - 1).push(ids[upto - 1]));
        crate::ordering::pushed_contains(ids.take(upto - 1), ids[upto - 1], node);
        crate::ordering::pushed_contains(new_vertices(ids, known, upto - 1), ids[upto - 1], node);
    }
}

/// A new vertex lies where the axis puts the anchor of its node.
pub proof fn new_vertices_lie_on_the_axis(ids: Seq<u32>, trial: AxisTrial, k: int, m: int)
    requires
        0 <= k < ids.len(),
        trial.nodes@.no_duplicates(),
        0 <= m < trial.nodes@.len(),
        trial.nodes@[m] == ids[k],
    ensures
        points_of(ids, trial)[k] == trial.measure.anchors@[m].point,
{
    place_holds(trial.nodes@, ids[k], trial.nodes@.len() as int);
    let at = last_index(trial.nodes@, ids[k], trial.nodes@.len() as int);
    if at < m {
        assert(trial.nodes@[m] != ids[k]);
    }
    assert(at == m);
}

/// The greatest movement is below none of the anchors' and not below what it was.
pub proof fn movements_are_not_understated(start: Scalar, ids: Seq<u32>, trial: AxisTrial, upto: int, k: int)
    requires
        0 <= k < upto <= ids.len(),
        !start.nan(),
        forall|m: int| 0 <= m < trial.measure.anchors@.len() ==> !(#[trigger] trial.measure.anchors@[m]).from_candidate.nan(),
        trial.measure.anchors@.len() == trial.nodes@.len(),
        forall|m: int| 0 <= m < ids.len() ==> trial.nodes@.contains(#[trigger] ids[m]),
    ensures
        start.le(movement_over(start, ids, trial, upto)),
        trial.measure.anchors@[last_index(trial.nodes@, ids[k], trial.nodes@.len() as int)].from_candidate.le(
            movement_over(start, ids, trial, upto),
        ),
        !movement_over(start, ids, trial, upto).nan(),
    decreases upto,
{
    let n = trial.nodes@.len() as int;
    assert(trial.nodes@.contains(ids[upto - 1]));
    places_hold_the_value(trial.nodes@, ids[upto - 1]);
    let here = trial.measure.anchors@[last_index(trial.nodes@, ids[upto - 1], n)].from_candidate;
    assert(!here.nan());
    if k < upto - 1 {
        movements_are_not_understated(start, ids, trial, upto - 1, k);
    } else if upto > 1 {
        movements_are_not_understated(start, ids, trial, upto - 1, 0);
    } else {
        assert(movement_over(start, ids, trial, 0) == start);
    }
}

/// An anchor lies in a surface of its joint, at its vertex and its parameter, and only where it
/// was placed there.
pub proof fn contacts_are_at_the_anchor(
    axis: usize,
    node: u32,
    m: int,
    trial: AxisTrial,
    joints: Seq<Joint>,
    vertices: Seq<u32>,
    place: int,
    v: usize,
)
    requires
        0 <= m < owned_surfaces(joints, node).len(),
        trial.nodes@.no_duplicates(),
        vertices.no_duplicates(),
        0 <= place < trial.nodes@.len(),
        trial.nodes@[place] == node,
        v < vertices.len(),
        vertices[v as int] == node,
    ensures
        contact_at(axis, node, m, trial, joints, vertices) == (Contact::Point {
            axis,
            surface: owned_surfaces(joints, node)[m],
            vertex: v,
            t: trial.measure.anchors@[place].parameter,
            location: trial.placements@[place]@[m].location->0,
        }),
{
    place_holds(trial.nodes@, node, trial.nodes@.len() as int);
    place_holds(vertices, node, vertices.len() as int);
    let at = last_index(trial.nodes@, node, trial.nodes@.len() as int);
    if at < place {
        assert(trial.nodes@[place] != node);
    }
    let vertex = last_index(vertices, node, vertices.len() as int);
    if vertex < v {
        assert(vertices[v as int] != node);
    }
}

/// Every anchor has a contact with every surface of its joint.
pub proof fn anchors_have_all_their_contacts(
    axis: usize,
    anchors: Seq<frame::Anchor>,
    node_ids: Seq<u32>,
    trial: AxisTrial,
    joints: Seq<Joint>,
    vertices: Seq<u32>,
    upto: int,
    k: int,
    m: int,
)
    requires
        0 <= k < upto <= anchors.len(),
        0 <= m < owned_surfaces(joints, node_ids[anchors[k].node as int]).len(),
    ensures
        point_contacts(axis, anchors, node_ids, trial, joints, vertices, upto).contains(
            contact_at(axis, node_ids[anchors[k].node as int], m, trial, joints, vertices),
        ),
    decreases upto,
{
    let wanted = contact_at(axis, node_ids[anchors[k].node as int], m, trial, joints, vertices);
    let rest = point_contacts(axis, anchors, node_ids, trial, joints, vertices, upto - 1);
    let all = point_contacts(axis, anchors, node_ids, trial, joints, vertices, upto);
    if k < upto - 1 {
        anchors_have_all_their_contacts(axis, anchors, node_ids, trial, joints, vertices, upto - 1, k, m);
        let i = choose|i: int| 0 <= i < rest.len() && rest[i] == wanted;
        assert(all[i] == wanted);
    } else {
        assert(contacts_at(axis, node_ids[anchors[k].node as int], trial, joints, vertices)[m] == wanted);
        assert(all[rest.len() + m] == wanted);
    }
}

/// An axis has the stretches of a surface as contacts exactly when both its ends lie in it.
pub proof fn axes_touch_where_they_lie(axis: usize, surface: usize, stretch: Stretch, precision: Scalar)
    ensures
        stretch.start_offset.le(precision) && stretch.end_offset.le(precision) ==> stretch_contacts(axis, surface, stretch, precision).len()
            == stretch.intervals@.len() && forall|k: int|
            0 <= k < stretch.intervals@.len() ==> #[trigger] stretch_contacts(axis, surface, stretch, precision)[k] == (
            Contact::Interval {
                axis,
                surface,
                start_t: stretch.intervals@[k].start_t,
                end_t: stretch.intervals@[k].end_t,
                location: stretch.intervals@[k].location,
            }),
        !stretch.start_offset.le(precision) || !stretch.end_offset.le(precision) ==> stretch_contacts(axis, surface, stretch, precision).len() == 0,
{
}

/// A rebuilt axis ends at the vertices of its end nodes, and every anchor stands at the vertex
/// of its node.
pub proof fn rebuilt_axes_end_at_their_nodes(
    built: Axis,
    source_axis: usize,
    axis: frame::Axis,
    node_ids: Seq<u32>,
    trial: AxisTrial,
    vertices: Seq<u32>,
    k: int,
)
    requires
        axis_rebuilt(built, source_axis, axis, node_ids, trial, vertices),
        vertices.len() <= usize::MAX,
        vertices.contains(node_ids[axis.endpoints[0] as int]),
        vertices.contains(node_ids[axis.endpoints[1] as int]),
        0 <= k < axis.anchors@.len(),
        vertices.contains(node_ids[axis.anchors@[k].node as int]),
    ensures
        built.source_axis == source_axis,
        vertices[built.endpoints[0] as int] == node_ids[axis.endpoints[0] as int],
        vertices[built.endpoints[1] as int] == node_ids[axis.endpoints[1] as int],
        built.anchors@[k].source_node == node_ids[axis.anchors@[k].node as int],
        vertices[built.anchors@[k].vertex as int] == node_ids[axis.anchors@[k].node as int],
        built.spans@.len() == axis.spans@.len(),
        forall|s: int|
            0 <= s < axis.spans@.len() ==> (#[trigger] built.spans@[s]).element == axis.spans@[s].element && built.spans@[s].stiffness
                == axis.spans@[s].stiffness,
{
    places_hold_the_value(vertices, node_ids[axis.endpoints[0] as int]);
    places_hold_the_value(vertices, node_ids[axis.endpoints[1] as int]);
    places_hold_the_value(vertices, node_ids[axis.anchors@[k].node as int]);
    assert(built.anchors@[k].source_node == node_ids[axis.anchors@[k].node as int]);
}

/// An axis that is taken has all its anchors within the precision of the surfaces of their
/// joints.
pub proof fn taken_axes_lie_in_their_surfaces(
    ids: Seq<u32>,
    nodes: Seq<u32>,
    joints: Seq<Joint>,
    placements: Seq<Vec<Placement>>,
    precision: Scalar,
    from: int,
    k: int,
    m: int,
)
    requires
        0 <= from <= k < ids.len(),
        first_outside(ids, nodes, joints, placements, precision, from) is None,
        0 <= m < owned_surfaces(joints, ids[k]).len(),
    ensures
        ({
            let placement = placements[last_index(nodes, ids[k], nodes.len() as int)]@[m];
            placement.location is Some && !precision.lt(placement.distance)
        }),
    decreases ids.len() - from,
{
    if from < k {
        taken_axes_lie_in_their_surfaces(ids, nodes, joints, placements, precision, from + 1, k, m);
    } else {
        let placement = placements[last_index(nodes, ids[k], nodes.len() as int)]@[m];
        assert(!placed_outside(placement, precision));
    }
}

/// A joint is on record as one that no axis can be anchored at exactly when it is unavailable,
/// with its node and the reason.
pub proof fn unavailable_joints_are_on_record(joints: Seq<Joint>, states: Seq<JointState>, upto: int, entry: (u32, Seq<char>))
    requires
        0 <= upto <= joints.len(),
        states.len() == joints.len(),
    ensures
        unavailable_joints(joints, states, upto).contains(entry) <==> exists|j: int|
            0 <= j < upto && (#[trigger] joints[j]).node == entry.0 && (states[j].unavailable matches Some(reason) && entry.1
                == unavailable_reason(reason)),
    decreases upto,
{
    if upto > 0 {
        unavailable_joints_are_on_record(joints, states, upto - 1, entry);
        if let Some(reason) = states[upto - 1].unavailable {
            crate::ordering::pushed_contains(
                unavailable_joints(joints, states, upto - 1),
                (joints[upto - 1].node, unavailable_reason(reason)),
                entry,
            );
        }
    }
}

/// An axis that is added is the last one. It has the contacts of its anchors and of its
/// stretches, new vertices for nodes without one, and leaves all else as it was.
pub proof fn added_axes_leave_the_rest(
    before: AxisBuild,
    after: AxisBuild,
    source: frame::Report,
    source_axis: usize,
    trial: AxisTrial,
    ids: Seq<u32>,
    touched: Seq<usize>,
    joints: Seq<Joint>,
    policy: Policy,
    v: int,
    c: int,
    x: int,
)
    requires
        axis_added(before, after, source, source_axis, trial, ids, touched, joints, policy),
        before.spec_model().spec_vertices().len() == before.spec_nodes().len(),
        0 <= v < before.spec_nodes().len(),
        0 <= c < before.spec_report().contacts@.len(),
        0 <= x < before.spec_report().axes@.len(),
    ensures
        after.spec_nodes()[v] == before.spec_nodes()[v],
        after.spec_model().spec_vertices()[v] == before.spec_model().spec_vertices()[v],
        after.spec_model().spec_vertices().len() == after.spec_nodes().len(),
        after.spec_report().contacts@[c] == before.spec_report().contacts@[c],
        after.spec_report().axes@[x] == before.spec_report().axes@[x],
        after.spec_report().axes@.last().source_axis == source_axis,
        after.spec_report().issues@ == before.spec_report().issues@,
        after.spec_model().spec_surfaces() == before.spec_model().spec_surfaces(),
{
    assert(after.spec_report().axes@.drop_last()[x] == before.spec_report().axes@[x]);
}

/// A refused axis is named with its elements, its nodes and the reason, and changes nothing
/// else.
pub proof fn refused_axes_are_named(
    before: AxisBuild,
    after: AxisBuild,
    source_axis: usize,
    axis: frame::Axis,
    reason: Seq<char>,
    nodes: Seq<u32>,
    s: int,
)
    requires
        axis_refused(before, after, source_axis, axis, reason, nodes),
        0 <= s < axis.spans@.len(),
    ensures
        after.spec_model() == before.spec_model(),
        after.spec_report().axes@ == before.spec_report().axes@,
        after.spec_report().contacts@ == before.spec_report().contacts@,
        after.spec_report().issues@.len() == before.spec_report().issues@.len() + 1,
        after.spec_report().issues@.last().source_axis == source_axis,
        after.spec_report().issues@.last().reason@ == reason,
        after.spec_report().issues@.last().source_nodes@ == nodes,
        after.spec_report().issues@.last().source_elements@[s] == axis.spans@[s].element,
        forall|i: int|
            0 <= i < before.spec_report().issues@.len() ==> #[trigger] after.spec_report().issues@[i] == before.spec_report().issues@[i],
{
    assert forall|i: int| 0 <= i < before.spec_report().issues@.len() implies #[trigger] after.spec_report().issues@[i]
        == before.spec_report().issues@[i] by {
        assert(after.spec_report().issues@.drop_last()[i] == before.spec_report().issues@[i]);
    }
}

/// An axis is taken exactly when it is a sound proposal and no anchor lies outside a surface of
/// its joint.
pub proof fn axes_are_taken_inside_their_surfaces(
    source: frame::Report,
    axis: frame::Axis,
    trial: AxisTrial,
    ids: Seq<u32>,
    joints: Seq<Joint>,
    states: Seq<JointState>,
    policy: Policy,
)
    ensures
        trial_refused(source, axis, trial, ids, joints, states, policy) is None <==> proposal_failure(
            source,
            axis,
            trial.nodes@,
            trial.measure,
            joints,
            states,
            policy,
        ) is None && first_outside(ids, trial.nodes@, joints, trial.placements@, policy.precision, 0) is None,
        proposal_failure(source, axis, trial.nodes@, trial.measure, joints, states, policy) is Some ==> trial_refused(
            source,
            axis,
            trial,
            ids,
            joints,
            states,
            policy,
        ) == proposal_failure(source, axis, trial.nodes@, trial.measure, joints, states, policy),
        trial_refused(source, axis, trial, ids, joints, states, policy) matches Some(failure) ==> (proposal_failure(
            source,
            axis,
            trial.nodes@,
            trial.measure,
            joints,
            states,
            policy,
        ) is None ==> failure.0 == "anchor_outside_source_surface"@ && failure.1.len() == 1),
{
}

/// An axis touches exactly the surfaces of the joints at its nodes.
pub proof fn axes_touch_the_surfaces_of_their_joints(touched: Seq<usize>, nodes: Seq<u32>, joints: Seq<Joint>, k: int, m: int)
    requires
        touched_by(touched, nodes, joints),
        0 <= k < nodes.len(),
        0 <= m < owned_surfaces(joints, nodes[k]).len(),
    ensures
        touched.contains(owned_surfaces(joints, nodes[k])[m]),
{
    let s = owned_surfaces(joints, nodes[k])[m];
    assert(owned_surfaces(joints, nodes[k]).contains(s));
    assert(touches_surface(nodes, joints, s));
}

/// The contacts over stretches are those of every touched surface, one after the other.
pub proof fn stretches_of_all_surfaces_are_contacts(
    axis: usize,
    touched: Seq<usize>,
    stretches: Seq<Stretch>,
    precision: Scalar,
    upto: int,
)
    requires
        0 <= upto <= touched.len(),
    ensures
        interval_contacts(axis, touched, stretches, precision, upto) == Seq::new(
            upto as nat,
            |k: int| stretch_contacts(axis, touched[k], stretches[k], precision),
        ).flatten(),
    decreases upto,
{
    let part = |k: int| stretch_contacts(axis, touched[k], stretches[k], precision);
    let parts = Seq::new(upto as nat, part);
    parts.lemma_flatten_and_flatten_alt_are_equivalent();
    if upto > 0 {
        stretches_of_all_surfaces_are_contacts(axis, touched, stretches, precision, upto - 1);
        let fewer = Seq::new((upto - 1) as nat, part);
        fewer.lemma_flatten_and_flatten_alt_are_equivalent();
        assert(parts.drop_last() =~= fewer);
    } else {
        assert(interval_contacts(axis, touched, stretches, precision, upto) =~= parts.flatten());
    }
}

/// The surfaces at a node are those of the joint there.
pub proof fn surfaces_at_a_node_are_its_joints(joints: Seq<Joint>, j: int)
    requires
        joints_sorted(joints),
        0 <= j < joints.len(),
    ensures
        owned_surfaces(joints, joints[j].node) == joints[j].surfaces@,
{
    let node = joints[j].node;
    let i = choose|i: int| 0 <= i < joints.len() && (#[trigger] joints[i]).node == node;
    if i < j {
        assert(joints[i].node < joints[j].node);
    } else if j < i {
        assert(joints[j].node < joints[i].node);
    }
}

} // verus!
