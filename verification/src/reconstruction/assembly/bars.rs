//! Two-endpoint axes against fixed surface geometry. Contacts are geometric
//! constraints for later meshing, never inferred mechanical ties.
pub mod axes;
pub mod joints;
pub mod repair;

use vstd::prelude::*;
use crate::input::Point;
use crate::ordering::{copy_ids, lists_id, sorted_indices, stable_order};
use crate::points::{is_same_value, same_value};
use crate::reconstruction::assembly::bars::joints::{find_joint, joints_sorted, Joint, JointState};
use crate::reconstruction::assembly::Policy;
use crate::reconstruction::frame;
use crate::reconstruction::recognize::SourceSpan;

use crate::scalar::Scalar;

verus! {

#[derive(Debug, Clone, Copy, PartialEq, Eq, Structural)]
pub struct Anchor {
    pub source_node: u32,
    pub vertex: usize,
    pub t: Scalar,
}

#[derive(Debug)]
pub struct Axis {
    pub source_axis: usize,
    pub endpoints: [usize; 2],
    pub anchors: Vec<Anchor>,
    pub spans: Vec<SourceSpan>,
}

#[derive(Debug, Clone, Copy, PartialEq, Eq, Structural)]
pub enum Location {
    Boundary,
    Interior,
}

#[derive(Debug, Clone, Copy, PartialEq, Eq, Structural)]
pub enum Contact {
    Point { axis: usize, surface: usize, vertex: usize, t: Scalar, location: Location },
    Interval { axis: usize, surface: usize, start_t: Scalar, end_t: Scalar, location: Location },
}

#[derive(Debug)]
pub struct Issue {
    pub source_axis: usize,
    pub source_elements: Vec<u32>,
    pub source_nodes: Vec<u32>,
    pub reason: String,
}

#[derive(Debug)]
pub struct RejectedAnchor {
    pub source_node: u32,
    pub reason: String,
}

#[derive(Debug)]
pub struct Report {
    pub all_axes_built: bool,
    pub axes: Vec<Axis>,
    pub contacts: Vec<Contact>,
    pub issues: Vec<Issue>,
    /// Joints that no axis can be anchored at, ascending by node.
    pub rejected_shared_anchors: Vec<RejectedAnchor>,
    pub maximum_additional_movement: Scalar,
    /// No subdivision at intersections and no mesh generation at this stage.
    pub mesh_constraints_complete: bool,
}

impl Default for Report {
    fn default() -> (r: Report)
        ensures
            !r.all_axes_built,
            r.axes@.len() == 0,
            r.contacts@.len() == 0,
            r.issues@.len() == 0,
            r.rejected_shared_anchors@.len() == 0,
            r.maximum_additional_movement == Scalar::spec_zero(),
            !r.mesh_constraints_complete,
    {
        Report {
            all_axes_built: false,
            axes: Vec::new(),
            contacts: Vec::new(),
            issues: Vec::new(),
            rejected_shared_anchors: Vec::new(),
            maximum_additional_movement: Scalar::zero(),
            mesh_constraints_complete: false,
        }
    }
}

/// What is measured of an anchor under the proposed axis.
#[derive(Debug)]
pub struct AnchorMeasure {
    pub point: Point,
    /// Distance of a fixed joint from the proposed axis.
    pub off_axis: Scalar,
    /// Distances of the point from the supports of the joint.
    pub from_supports: Vec<Scalar>,
    pub from_source: Scalar,
    /// Movement that the node's budget allows from its source.
    pub allowance: Scalar,
    pub from_candidate: Scalar,
    /// Parameter of the point along the axis.
    pub parameter: Scalar,
    /// Distance of the point from the line through the ends.
    pub deviation: Scalar,
}

/// What is measured of a proposed axis; its anchors by ascending parameter.
#[derive(Debug)]
pub struct AxisMeasure {
    pub reference_length: Scalar,
    /// Length between the outermost fixed joints or the candidate ends.
    pub span_length: Scalar,
    /// Whether a direction was found that keeps to the source.
    pub direction_kept: bool,
    /// Whether a line in that direction meets the supports common to the anchors.
    pub line_met: bool,
    pub anchors: Vec<AnchorMeasure>,
    /// Length between the ends plus the precision.
    pub padded_length: Scalar,
    /// Projection of the axis on its source direction.
    pub advance: Scalar,
    /// Lengths between consecutive anchors.
    pub gaps: Vec<Scalar>,
}

pub open spec fn parameter_keys(keys: Seq<i128>, anchors: Seq<frame::Anchor>) -> bool {
    &&& keys.len() == anchors.len()
    &&& forall|k: int| 0 <= k < anchors.len() ==> #[trigger] keys[k] == anchors[k].t.total_rank()
}

/// The anchors by ascending source parameter.
pub open spec fn anchor_order(order: Seq<usize>, anchors: Seq<frame::Anchor>) -> bool {
    exists|keys: Seq<i128>| #[trigger] parameter_keys(keys, anchors) && stable_order(keys, order)
}

pub open spec fn ordered_nodes(nodes: Seq<u32>, order: Seq<usize>, anchors: Seq<frame::Anchor>, ids: Seq<u32>) -> bool {
    &&& nodes.len() == order.len()
    &&& forall|k: int|
        0 <= k < order.len() ==> #[trigger] nodes[k] == ids[anchors[order[k] as int].node as int]
}

#[verifier::loop_isolation(false)]
pub fn ordered_anchors(axis: &frame::Axis, ids: &Vec<u32>) -> (r: (Vec<usize>, Vec<u32>))
    requires
        forall|k: int| 0 <= k < axis.anchors@.len() ==> (#[trigger] axis.anchors@[k]).node < ids@.len(),
    ensures
        anchor_order(r.0@, axis.anchors@),
        ordered_nodes(r.1@, r.0@, axis.anchors@, ids@),
{
    let mut keys: Vec<i128> = Vec::new();
    let mut k: usize = 0;
    while k < axis.anchors.len()
        invariant
            k <= axis.anchors.len(),
            keys.len() == k,
            forall|m: int| 0 <= m < k ==> #[trigger] keys@[m] == axis.anchors@[m].t.total_rank(),
        decreases axis.anchors.len() - k,
    {
        keys.push(axis.anchors[k].t.total_key() as i128);
        k += 1;
    }
    let order = sorted_indices(&keys);
    assert(parameter_keys(keys@, axis.anchors@));
    let mut nodes: Vec<u32> = Vec::new();
    let mut k: usize = 0;
    while k < order.len()
        invariant
            k <= order.len(),
            nodes.len() == k,
            forall|m: int|
                0 <= m < k ==> #[trigger] nodes@[m] == ids@[axis.anchors@[order@[m] as int].node as int],
        decreases order.len() - k,
    {
        assert(axis.anchors@[order@[k as int] as int].node < ids@.len());
        nodes.push(ids[axis.anchors[order[k]].node]);
        k += 1;
    }
    (order, nodes)
}

pub open spec fn unavailable_at(node: u32, joints: Seq<Joint>, states: Seq<JointState>) -> bool {
    exists|j: int|
        0 <= j < joints.len() && (#[trigger] joints[j]).node == node && states[j].unavailable is Some
}

/// The joint at the node is fixed at the place.
pub open spec fn locked_to(node: u32, joints: Seq<Joint>, states: Seq<JointState>, place: Point) -> bool {
    exists|j: int|
        0 <= j < joints.len() && (#[trigger] joints[j]).node == node && states[j].lock == Some(place)
}

/// Where the joint at the node is fixed, if it is.
pub open spec fn lock_at(node: u32, joints: Seq<Joint>, states: Seq<JointState>) -> Option<Point> {
    if exists|place: Point| #[trigger] locked_to(node, joints, states, place) {
        Some(choose|place: Point| #[trigger] locked_to(node, joints, states, place))
    } else {
        None
    }
}

/// The unavailable nodes among the first ones, in their order.
pub open spec fn unavailable_among(
    nodes: Seq<u32>,
    joints: Seq<Joint>,
    states: Seq<JointState>,
    upto: int,
) -> Seq<u32>
    decreases upto,
{
    if upto <= 0 {
        Seq::empty()
    } else if unavailable_at(nodes[upto - 1], joints, states) {
        unavailable_among(nodes, joints, states, upto - 1).push(nodes[upto - 1])
    } else {
        unavailable_among(nodes, joints, states, upto - 1)
    }
}

pub open spec fn some_beyond(values: Seq<Scalar>, limit: Scalar) -> bool {
    exists|k: int| 0 <= k < values.len() && limit.lt(#[trigger] values[k])
}

pub open spec fn point_finite(point: Point) -> bool {
    point[0].finite() && point[1].finite() && point[2].finite()
}

/// A fixed anchor is off the axis or would leave its place.
pub open spec fn off_lock(measure: AnchorMeasure, lock: Option<Point>, policy: Policy) -> bool {
    match lock {
        Some(place) => policy.precision.lt(measure.off_axis) || measure.point != place,
        None => false,
    }
}

/// Why an anchor cannot be where the proposed axis puts it.
pub open spec fn anchor_failure(measure: AnchorMeasure, lock: Option<Point>, policy: Policy) -> Option<Seq<char>> {
    if off_lock(measure, lock, policy) {
        Some("shared_anchors_not_collinear"@)
    } else if some_beyond(measure.from_supports@, policy.precision) {
        Some("axis_surface_incidence_conflict"@)
    } else if !point_finite(measure.point) || measure.allowance.lt(measure.from_source)
        || policy.junction_movement_limit.lt(measure.from_candidate) {
        Some("axis_movement_budget"@)
    } else {
        None
    }
}

pub open spec fn first_anchor_failure(
    measures: Seq<AnchorMeasure>,
    nodes: Seq<u32>,
    joints: Seq<Joint>,
    states: Seq<JointState>,
    policy: Policy,
    from: int,
) -> Option<(Seq<char>, Seq<u32>)>
    decreases nodes.len() - from,
{
    if from >= nodes.len() {
        None
    } else {
        match anchor_failure(measures[from], lock_at(nodes[from], joints, states), policy) {
            Some(reason) => Some((reason, seq![nodes[from]])),
            None => first_anchor_failure(measures, nodes, joints, states, policy, from + 1),
        }
    }
}

/// The next anchor does not come after this one.
pub open spec fn collapsed(measure: AxisMeasure, policy: Policy, k: int) -> bool {
    measure.gaps@[k].le(policy.precision) || !measure.anchors@[k].parameter.lt(measure.anchors@[k + 1].parameter)
}

pub open spec fn first_collapsed(measure: AxisMeasure, nodes: Seq<u32>, policy: Policy, from: int) -> Option<
    (Seq<char>, Seq<u32>),
>
    decreases nodes.len() - from,
{
    if from + 1 >= nodes.len() {
        None
    } else if collapsed(measure, policy, from) {
        Some(("collapsed_or_reordered_property_span"@, seq![nodes[from], nodes[from + 1]]))
    } else {
        first_collapsed(measure, nodes, policy, from + 1)
    }
}

/// The parameter is zero at the first end and one at the second.
pub open spec fn ends_measured(measures: Seq<AnchorMeasure>, nodes: Seq<u32>, ends: Seq<u32>) -> bool {
    forall|k: int|
        0 <= k < nodes.len() ==> {
            &&& #[trigger] nodes[k] == ends[0] ==> same_value(measures[k].parameter, Scalar::spec_zero())
            &&& nodes[k] == ends[1] ==> same_value(measures[k].parameter, Scalar::spec_one())
        }
}

/// What holds of the anchors of an accepted axis: fixed ones keep their places, and
/// the parameters ascend from zero at the first end to one at the second.
pub open spec fn anchors_kept(
    measures: Seq<AnchorMeasure>,
    nodes: Seq<u32>,
    ends: Seq<u32>,
    joints: Seq<Joint>,
    states: Seq<JointState>,
) -> bool {
    &&& forall|k: int, place: Point|
        0 <= k < nodes.len() && #[trigger] locked_to(nodes[k], joints, states, place) ==> measures[k].point == place
    &&& forall|k: int, m: int|
        0 <= k < m < nodes.len() ==> (#[trigger] measures[k]).parameter.lt((#[trigger] measures[m]).parameter)
    &&& ends_measured(measures, nodes, ends)
}

/// The least length that a rebuilt axis keeps.
pub open spec fn least_length(minimum: Scalar, reference: Scalar) -> Scalar {
    if reference.lt(minimum) {
        reference
    } else {
        minimum
    }
}

pub open spec fn has_parameter(anchors: Seq<frame::Anchor>, t: Scalar) -> bool {
    exists|k: int| 0 <= k < anchors.len() && same_value((#[trigger] anchors[k]).t, t)
}

pub open spec fn spans_anchored(spans: Seq<SourceSpan>, anchors: Seq<frame::Anchor>) -> bool {
    forall|s: int|
        0 <= s < spans.len() ==> has_parameter(anchors, (#[trigger] spans[s]).start_t) && has_parameter(
            anchors,
            spans[s].end_t,
        )
}

/// Why an axis cannot be rebuilt, with the nodes concerned; `None` where it can.
pub open spec fn proposal_failure(
    source: frame::Report,
    axis: frame::Axis,
    nodes: Seq<u32>,
    measure: AxisMeasure,
    joints: Seq<Joint>,
    states: Seq<JointState>,
    policy: Policy,
) -> Option<(Seq<char>, Seq<u32>)> {
    let bad = unavailable_among(nodes, joints, states, nodes.len() as int);
    let ends = seq![
        source.node_ids@[axis.endpoints[0] as int],
        source.node_ids@[axis.endpoints[1] as int],
    ];
    if bad.len() > 0 {
        Some(("unavailable_shared_anchor"@, bad))
    } else if !nodes.contains(ends[0]) || !nodes.contains(ends[1]) || axis.spans@.len() == 0 {
        Some(("incomplete_axis_definition"@, ends))
    } else if measure.reference_length.le(policy.precision) {
        Some(("degenerate_reference_axis"@, ends))
    } else if measure.span_length.le(policy.precision) {
        Some(("coincident_axis_anchors"@, ends))
    } else if !measure.direction_kept {
        Some(("axis_direction_conflict"@, ends))
    } else if !measure.line_met {
        Some(("axis_surface_incidence_conflict"@, nodes))
    } else {
        match first_anchor_failure(measure.anchors@, nodes, joints, states, policy, 0) {
            Some(failure) => Some(failure),
            None => if measure.padded_length.lt(
                least_length(source.policy.minimum_length, measure.reference_length),
            ) || measure.advance.le(Scalar::spec_zero()) || !ends_measured(measure.anchors@, nodes, ends) {
                Some(("axis_length_or_orientation"@, ends))
            } else {
                match first_collapsed(measure, nodes, policy, 0) {
                    Some(failure) => Some(failure),
                    None => if exists|k: int|
                        0 <= k < measure.anchors@.len() && policy.precision.lt(
                            (#[trigger] measure.anchors@[k]).deviation,
                        ) {
                        Some(("axis_straightness"@, nodes))
                    } else if !spans_anchored(axis.spans@, axis.anchors@) {
                        Some(("missing_span_anchor"@, Seq::empty()))
                    } else {
                        None
                    },
                }
            },
        }
    }
}

pub open spec fn measured_for(measure: AxisMeasure, axis: frame::Axis) -> bool {
    &&& measure.anchors@.len() == axis.anchors@.len()
    &&& measure.gaps@.len() + 1 >= axis.anchors@.len()
}

/// The first anchor in order with the source parameter.
pub open spec fn first_with_parameter(order: Seq<usize>, anchors: Seq<frame::Anchor>, t: Scalar, k: int) -> bool {
    &&& 0 <= k < order.len()
    &&& same_value(anchors[order[k] as int].t, t)
    &&& forall|m: int|
        0 <= m < k ==> !same_value(anchors[#[trigger] order[m] as int].t, t)
}

pub open spec fn span_rebuilt(
    span: SourceSpan,
    source: SourceSpan,
    order: Seq<usize>,
    anchors: Seq<frame::Anchor>,
    measures: Seq<AnchorMeasure>,
) -> bool {
    &&& span.element == source.element
    &&& span.stiffness == source.stiffness
    &&& forall|k: int| #[trigger]
        first_with_parameter(order, anchors, source.start_t, k) ==> span.start_t == measures[k].parameter
    &&& forall|k: int| #[trigger]
        first_with_parameter(order, anchors, source.end_t, k) ==> span.end_t == measures[k].parameter
}

pub open spec fn spans_rebuilt(
    spans: Seq<SourceSpan>,
    source: Seq<SourceSpan>,
    order: Seq<usize>,
    anchors: Seq<frame::Anchor>,
    measures: Seq<AnchorMeasure>,
) -> bool {
    &&& spans.len() == source.len()
    &&& forall|s: int|
        0 <= s < spans.len() ==> span_rebuilt(#[trigger] spans[s], source[s], order, anchors, measures)
}

fn is_unavailable(node: u32, joints: &Vec<Joint>, states: &Vec<JointState>) -> (r: bool)
    requires
        joints_sorted(joints@),
        states@.len() == joints@.len(),
    ensures
        r == unavailable_at(node, joints@, states@),
{
    match find_joint(joints, node) {
        Some(j) => {
            proof {
                assert forall|i: int| 0 <= i < joints@.len() && (#[trigger] joints@[i]).node == node implies i == j by {
                    assert(joints@[j as int].node == node);
                }
            }
            states[j].unavailable.is_some()
        },
        None => false,
    }
}

proof fn lock_unique(node: u32, joints: Seq<Joint>, states: Seq<JointState>, j: int)
    requires
        joints_sorted(joints),
        0 <= j < joints.len(),
        joints[j].node == node,
    ensures
        lock_at(node, joints, states) == states[j].lock,
        forall|place: Point| #[trigger] locked_to(node, joints, states, place) <==> states[j].lock == Some(place),
{
    assert forall|i: int| 0 <= i < joints.len() && (#[trigger] joints[i]).node == node implies i == j by {
        assert(joints[j].node == node);
    }
    if states[j].lock is Some {
        assert(locked_to(node, joints, states, states[j].lock->0));
    }
}

pub fn find_lock(node: u32, joints: &Vec<Joint>, states: &Vec<JointState>) -> (r: Option<Point>)
    requires
        joints_sorted(joints@),
        states@.len() == joints@.len(),
    ensures
        r == lock_at(node, joints@, states@),
{
    match find_joint(joints, node) {
        Some(j) => {
            proof {
                lock_unique(node, joints@, states@, j as int);
            }
            states[j].lock
        },
        None => None,
    }
}

fn is_off_lock(measure: &AnchorMeasure, lock: Option<Point>, policy: &Policy) -> (r: bool)
    ensures
        r == off_lock(*measure, lock, *policy),
{
    match lock {
        Some(place) => {
            let kept: bool = measure.point[0] == place[0] && measure.point[1] == place[1] && measure.point[2]
                == place[2];
            proof {
                if kept {
                    assert(measure.point@ =~= place@);
                    assert(measure.point == place);
                }
            }
            policy.precision.less(&measure.off_axis) || !kept
        },
        None => false,
    }
}

fn anchor_refusal(measure: &AnchorMeasure, lock: Option<Point>, policy: &Policy) -> (r: Option<&'static str>)
    ensures
        match r {
            Some(reason) => anchor_failure(*measure, lock, *policy) == Some(reason@),
            None => anchor_failure(*measure, lock, *policy) is None,
        },
{
    if is_off_lock(measure, lock, policy) {
        return Some("shared_anchors_not_collinear");
    }
    let mut k: usize = 0;
    while k < measure.from_supports.len()
        invariant
            !off_lock(*measure, lock, *policy),
            k <= measure.from_supports.len(),
            forall|m: int| 0 <= m < k ==> !policy.precision.lt(#[trigger] measure.from_supports@[m]),
        decreases measure.from_supports.len() - k,
    {
        if policy.precision.less(&measure.from_supports[k]) {
            assert(some_beyond(measure.from_supports@, policy.precision));
            return Some("axis_surface_incidence_conflict");
        }
        k += 1;
    }
    assert(!some_beyond(measure.from_supports@, policy.precision));
    if !measure.point[0].is_finite() || !measure.point[1].is_finite() || !measure.point[2].is_finite()
        || measure.allowance.less(&measure.from_source) || policy.junction_movement_limit.less(
        &measure.from_candidate,
    ) {
        Some("axis_movement_budget")
    } else {
        None
    }
}

fn find_parameter(order: &Vec<usize>, anchors: &Vec<frame::Anchor>, t: &Scalar) -> (r: Option<usize>)
    requires
        forall|k: int| 0 <= k < order@.len() ==> #[trigger] order@[k] < anchors@.len(),
        forall|x: usize| x < anchors@.len() ==> #[trigger] order@.contains(x),
    ensures
        match r {
            Some(k) => first_with_parameter(order@, anchors@, *t, k as int) && has_parameter(anchors@, *t),
            None => !has_parameter(anchors@, *t),
        },
{
    let mut k: usize = 0;
    while k < order.len()
        invariant
            k <= order.len(),
            forall|k: int| 0 <= k < order@.len() ==> #[trigger] order@[k] < anchors@.len(),
            forall|m: int| 0 <= m < k ==> !same_value(anchors@[#[trigger] order@[m] as int].t, *t),
        decreases order.len() - k,
    {
        if is_same_value(&anchors[order[k]].t, t) {
            assert(same_value(anchors@[order@[k as int] as int].t, *t));
            return Some(k);
        }
        k += 1;
    }
    proof {
        if has_parameter(anchors@, *t) {
            let i = choose|i: int| 0 <= i < anchors@.len() && same_value((#[trigger] anchors@[i]).t, *t);
            assert(i < anchors.len() <= usize::MAX);
            assert(order@.contains(i as usize));
            let m = choose|m: int| 0 <= m < order@.len() && order@[m] == i as usize;
            assert(!same_value(anchors@[order@[m] as int].t, *t));
        }
    }
    None
}

proof fn first_parameter_unique(order: Seq<usize>, anchors: Seq<frame::Anchor>, t: Scalar, a: int, b: int)
    requires
        first_with_parameter(order, anchors, t, a),
        first_with_parameter(order, anchors, t, b),
    ensures
        a == b,
{
    if a < b {
        assert(!same_value(anchors[order[a] as int].t, t));
    } else if b < a {
        assert(!same_value(anchors[order[b] as int].t, t));
    }
}

fn are_ends_measured(measures: &Vec<AnchorMeasure>, nodes: &Vec<u32>, first: u32, second: u32) -> (r: bool)
    requires
        measures@.len() == nodes@.len(),
    ensures
        r == ends_measured(measures@, nodes@, seq![first, second]),
{
    let mut k: usize = 0;
    while k < nodes.len()
        invariant
            k <= nodes@.len(),
            measures@.len() == nodes@.len(),
            ends_measured(measures@, nodes@.take(k as int), seq![first, second]),
        decreases nodes@.len() - k,
    {
        let parameter = &measures[k].parameter;
        if nodes[k] == first && !is_same_value(parameter, &Scalar::zero()) {
            assert(nodes@[k as int] == first);
            return false;
        }
        if nodes[k] == second && !is_same_value(parameter, &Scalar::one()) {
            assert(nodes@[k as int] == second);
            return false;
        }
        proof {
            let more = nodes@.take(k + 1);
            assert forall|m: int| 0 <= m < more.len() implies {
                &&& #[trigger] more[m] == first ==> same_value(measures@[m].parameter, Scalar::spec_zero())
                &&& more[m] == second ==> same_value(measures@[m].parameter, Scalar::spec_one())
            } by {
                if m < k {
                    assert(nodes@.take(k as int)[m] == more[m]);
                }
            }
        }
        k += 1;
    }
    assert(nodes@.take(k as int) =~= nodes@);
    true
}

proof fn anchors_pass(
    measures: Seq<AnchorMeasure>,
    nodes: Seq<u32>,
    joints: Seq<Joint>,
    states: Seq<JointState>,
    policy: Policy,
    from: int,
    k: int,
)
    requires
        0 <= from <= k < nodes.len(),
        first_anchor_failure(measures, nodes, joints, states, policy, from) is None,
    ensures
        anchor_failure(measures[k], lock_at(nodes[k], joints, states), policy) is None,
    decreases k - from,
{
    if from < k {
        anchors_pass(measures, nodes, joints, states, policy, from + 1, k);
    }
}

proof fn parameters_ascend(measure: AxisMeasure, nodes: Seq<u32>, policy: Policy, from: int, k: int, m: int)
    requires
        0 <= from <= k < m < nodes.len(),
        first_collapsed(measure, nodes, policy, from) is None,
    ensures
        measure.anchors@[k].parameter.lt(measure.anchors@[m].parameter),
    decreases m - from,
{
    if from < k {
        parameters_ascend(measure, nodes, policy, from + 1, k, m);
    } else {
        assert(!collapsed(measure, policy, k));
        if k + 1 < m {
            parameters_ascend(measure, nodes, policy, from + 1, k + 1, m);
        }
    }
}

/// An axis that is not refused keeps every fixed anchor at its place, and the
/// parameters of its anchors ascend from zero to one between its ends.
pub proof fn accepted_axis_keeps_anchors(
    source: frame::Report,
    axis: frame::Axis,
    nodes: Seq<u32>,
    measure: AxisMeasure,
    joints: Seq<Joint>,
    states: Seq<JointState>,
    policy: Policy,
)
    requires
        joints_sorted(joints),
        proposal_failure(source, axis, nodes, measure, joints, states, policy) is None,
    ensures
        anchors_kept(
            measure.anchors@,
            nodes,
            seq![source.node_ids@[axis.endpoints[0] as int], source.node_ids@[axis.endpoints[1] as int]],
            joints,
            states,
        ),
{
    let measures = measure.anchors@;
    assert forall|k: int, place: Point|
        0 <= k < nodes.len() && #[trigger] locked_to(nodes[k], joints, states, place) implies measures[k].point == place by {
        let j = choose|j: int| 0 <= j < joints.len() && (#[trigger] joints[j]).node == nodes[k] && states[j].lock == Some(place);
        lock_unique(nodes[k], joints, states, j);
        anchors_pass(measures, nodes, joints, states, policy, 0, k);
    }
    assert forall|k: int, m: int|
        0 <= k < m < nodes.len() implies (#[trigger] measures[k]).parameter.lt((#[trigger] measures[m]).parameter) by {
        parameters_ascend(measure, nodes, policy, 0, k, m);
    }
}

/// Accepts a measured axis, with its spans rebuilt on the new parameters, or
/// says why it is refused and which nodes that concerns.
#[verifier::loop_isolation(false)]
pub fn propose(
    source: &frame::Report,
    axis: &frame::Axis,
    order: &Vec<usize>,
    nodes: &Vec<u32>,
    measure: &AxisMeasure,
    joints: &Vec<Joint>,
    states: &Vec<JointState>,
    policy: &Policy,
) -> (r: Result<Vec<SourceSpan>, (&'static str, Vec<u32>)>)
    requires
        joints_sorted(joints@),
        states@.len() == joints@.len(),
        anchor_order(order@, axis.anchors@),
        ordered_nodes(nodes@, order@, axis.anchors@, source.node_ids@),
        measured_for(*measure, *axis),
        axis.endpoints[0] < source.node_ids@.len(),
        axis.endpoints[1] < source.node_ids@.len(),
    ensures
        match r {
            Ok(spans) => {
                &&& proposal_failure(*source, *axis, nodes@, *measure, joints@, states@, *policy) is None
                &&& spans_rebuilt(spans@, axis.spans@, order@, axis.anchors@, measure.anchors@)
                &&& anchors_kept(
                    measure.anchors@,
                    nodes@,
                    seq![source.node_ids@[axis.endpoints[0] as int], source.node_ids@[axis.endpoints[1] as int]],
                    joints@,
                    states@,
                )
            },
            Err((reason, concerned)) => proposal_failure(
                *source,
                *axis,
                nodes@,
                *measure,
                joints@,
                states@,
                *policy,
            ) == Some((reason@, concerned@)),
        },
{
    let mut bad: Vec<u32> = Vec::new();
    let mut k: usize = 0;
    while k < nodes.len()
        invariant
            k <= nodes.len(),
            bad@ == unavailable_among(nodes@, joints@, states@, k as int),
        decreases nodes.len() - k,
    {
        if is_unavailable(nodes[k], joints, states) {
            bad.push(nodes[k]);
        }
        k += 1;
    }
    if bad.len() > 0 {
        return Err(("unavailable_shared_anchor", bad));
    }
    let first: u32 = source.node_ids[axis.endpoints[0]];
    let second: u32 = source.node_ids[axis.endpoints[1]];
    let mut ends: Vec<u32> = Vec::new();
    ends.push(first);
    ends.push(second);
    assert(ends@ =~= seq![first, second]);
    if !lists_id(nodes, first) || !lists_id(nodes, second) || axis.spans.len() == 0 {
        return Err(("incomplete_axis_definition", ends));
    }
    if measure.reference_length.at_most(&policy.precision) {
        return Err(("degenerate_reference_axis", ends));
    }
    if measure.span_length.at_most(&policy.precision) {
        return Err(("coincident_axis_anchors", ends));
    }
    if !measure.direction_kept {
        return Err(("axis_direction_conflict", ends));
    }
    if !measure.line_met {
        return Err(("axis_surface_incidence_conflict", copy_ids(nodes)));
    }
    let mut k: usize = 0;
    while k < nodes.len()
        invariant
            k <= nodes.len(),
            first_anchor_failure(measure.anchors@, nodes@, joints@, states@, *policy, 0) == first_anchor_failure(
                measure.anchors@,
                nodes@,
                joints@,
                states@,
                *policy,
                k as int,
            ),
        decreases nodes.len() - k,
    {
        let lock = find_lock(nodes[k], joints, states);
        match anchor_refusal(&measure.anchors[k], lock, policy) {
            Some(reason) => {
                let mut here: Vec<u32> = Vec::new();
                here.push(nodes[k]);
                assert(here@ =~= seq![nodes@[k as int]]);
                return Err((reason, here));
            },
            None => {
            },
        }
        k += 1;
    }
    let floor: Scalar = if measure.reference_length.less(&source.policy.minimum_length) {
        measure.reference_length
    } else {
        source.policy.minimum_length
    };
    if measure.padded_length.less(&floor) || measure.advance.at_most(&Scalar::zero()) || !are_ends_measured(
        &measure.anchors,
        nodes,
        first,
        second,
    ) {
        return Err(("axis_length_or_orientation", ends));
    }
    let mut k: usize = 0;
    while k < nodes.len() && nodes.len() - k > 1
        invariant
            k <= nodes.len(),
            first_collapsed(*measure, nodes@, *policy, 0) == first_collapsed(*measure, nodes@, *policy, k as int),
        decreases nodes.len() - k,
    {
        if measure.gaps[k].at_most(&policy.precision) || !measure.anchors[k].parameter.less(
            &measure.anchors[k + 1].parameter,
        ) {
            let mut pair: Vec<u32> = Vec::new();
            pair.push(nodes[k]);
            pair.push(nodes[k + 1]);
            assert(pair@ =~= seq![nodes@[k as int], nodes@[k + 1]]);
            return Err(("collapsed_or_reordered_property_span", pair));
        }
        k += 1;
    }
    let mut k: usize = 0;
    while k < measure.anchors.len()
        invariant
            k <= measure.anchors.len(),
            forall|m: int| 0 <= m < k ==> !policy.precision.lt((#[trigger] measure.anchors@[m]).deviation),
        decreases measure.anchors.len() - k,
    {
        if policy.precision.less(&measure.anchors[k].deviation) {
            return Err(("axis_straightness", copy_ids(nodes)));
        }
        k += 1;
    }
    let mut spans: Vec<SourceSpan> = Vec::new();
    let mut s: usize = 0;
    while s < axis.spans.len()
        invariant
            s <= axis.spans.len(),
            spans.len() == s,
            forall|m: int| 0 <= m < s ==> span_rebuilt(#[trigger] spans@[m], axis.spans@[m], order@, axis.anchors@, measure.anchors@),
            forall|m: int| 0 <= m < s ==> has_parameter(axis.anchors@, (#[trigger] axis.spans@[m]).start_t) && has_parameter(axis.anchors@, axis.spans@[m].end_t),
        decreases axis.spans.len() - s,
    {
        let span = axis.spans[s];
        let nothing: Vec<u32> = Vec::new();
        let start = match find_parameter(order, &axis.anchors, &span.start_t) {
            Some(start) => start,
            None => {
                assert(!has_parameter(axis.anchors@, axis.spans@[s as int].start_t));
                assert(!spans_anchored(axis.spans@, axis.anchors@));
                return Err(("missing_span_anchor", nothing));
            },
        };
        let end = match find_parameter(order, &axis.anchors, &span.end_t) {
            Some(end) => end,
            None => {
                assert(!has_parameter(axis.anchors@, axis.spans@[s as int].end_t));
                assert(!spans_anchored(axis.spans@, axis.anchors@));
                return Err(("missing_span_anchor", nothing));
            },
        };
        let rebuilt = SourceSpan {
            element: span.element,
            stiffness: span.stiffness,
            start_t: measure.anchors[start].parameter,
            end_t: measure.anchors[end].parameter,
        };
        proof {
            assert forall|k: int| #[trigger] first_with_parameter(order@, axis.anchors@, span.start_t, k) implies rebuilt.start_t == measure.anchors@[k].parameter by {
                first_parameter_unique(order@, axis.anchors@, span.start_t, k, start as int);
            }
            assert forall|k: int| #[trigger] first_with_parameter(order@, axis.anchors@, span.end_t, k) implies rebuilt.end_t == measure.anchors@[k].parameter by {
                first_parameter_unique(order@, axis.anchors@, span.end_t, k, end as int);
            }
        }
        spans.push(rebuilt);
        s += 1;
    }
    assert(spans_anchored(axis.spans@, axis.anchors@));
    proof {
        accepted_axis_keeps_anchors(*source, *axis, nodes@, *measure, joints@, states@, *policy);
    }
    Ok(spans)
}

/// A stretch of an axis on a surface.
#[derive(Debug, Clone, Copy, PartialEq, Eq, Structural)]
pub struct Interval {
    pub start_t: Scalar,
    pub end_t: Scalar,
    pub location: Location,
}

/// The stretches that the pieces between consecutive cuts make up: a piece that
/// continues the one before it with the same location extends it.
pub open spec fn merged(cuts: Seq<Scalar>, kinds: Seq<Option<Location>>, upto: int) -> Seq<Interval>
    decreases upto,
{
    if upto <= 0 {
        Seq::empty()
    } else {
        let rest = merged(cuts, kinds, upto - 1);
        match kinds[upto - 1] {
            None => rest,
            Some(location) => if upto >= 2 && kinds[upto - 2] == Some(location) {
                rest.drop_last().push(Interval { end_t: cuts[upto], ..rest.last() })
            } else {
                rest.push(Interval { start_t: cuts[upto - 1], end_t: cuts[upto], location })
            },
        }
    }
}

proof fn merged_ends_with(cuts: Seq<Scalar>, kinds: Seq<Option<Location>>, upto: int)
    requires
        0 < upto <= kinds.len(),
        kinds[upto - 1] is Some,
    ensures
        merged(cuts, kinds, upto).len() > 0,
        merged(cuts, kinds, upto).last().location == kinds[upto - 1]->0,
        merged(cuts, kinds, upto).last().end_t == cuts[upto],
    decreases upto,
{
    if upto >= 2 && kinds[upto - 2] == kinds[upto - 1] {
        merged_ends_with(cuts, kinds, upto - 1);
    }
}

/// Clips a coplanar axis to the material of a surface: `kinds` says where each
/// piece between two consecutive cuts lies, if it lies on the surface at all.
pub fn merge_intervals(cuts: &Vec<Scalar>, kinds: &Vec<Option<Location>>) -> (r: Vec<Interval>)
    requires
        cuts@.len() == kinds@.len() + 1,
    ensures
        r@ == merged(cuts@, kinds@, kinds@.len() as int),
{
    let mut r: Vec<Interval> = Vec::new();
    let mut k: usize = 0;
    while k < kinds.len()
        invariant
            cuts@.len() == kinds@.len() + 1,
            k <= kinds.len(),
            r@ == merged(cuts@, kinds@, k as int),
        decreases kinds.len() - k,
    {
        match kinds[k] {
            None => {
            },
            Some(location) => {
                let mut extended: bool = false;
                if k > 0 && kinds[k - 1].is_some() {
                    proof {
                        merged_ends_with(cuts@, kinds@, k as int);
                    }
                    let mut last = r[r.len() - 1];
                    if last.location == location {
                        last.end_t = cuts[k + 1];
                        let end = r.len() - 1;
                        r.set(end, last);
                        assert(r@ =~= merged(cuts@, kinds@, k as int).drop_last().push(last));
                        extended = true;
                    }
                }
                if !extended {
                    r.push(Interval { start_t: cuts[k], end_t: cuts[k + 1], location });
                }
            },
        }
        k += 1;
    }
    r
}

/// Anchors come by ascending parameter.
pub proof fn anchors_come_along_the_axis(order: Seq<usize>, anchors: Seq<frame::Anchor>, i: int, j: int)
    requires
        anchor_order(order, anchors),
        0 <= i < j < order.len(),
    ensures
        order[i] < anchors.len() && order[j] < anchors.len(),
        anchors[order[i] as int].t.total_rank() <= anchors[order[j] as int].t.total_rank(),
{
    let keys = choose|keys: Seq<i128>| #[trigger] parameter_keys(keys, anchors) && stable_order(keys, order);
    assert(crate::ordering::key_before(keys, order[i], order[j]));
    assert(keys[order[i] as int] == anchors[order[i] as int].t.total_rank());
    assert(keys[order[j] as int] == anchors[order[j] as int].t.total_rank());
}

/// A node is named as unavailable exactly when its joint is.
pub proof fn unavailable_joints_are_named(nodes: Seq<u32>, joints: Seq<Joint>, states: Seq<JointState>, upto: int, node: u32)
    requires
        0 <= upto <= nodes.len(),
    ensures
        unavailable_among(nodes, joints, states, upto).contains(node) <==> nodes.take(upto).contains(node) && exists|j: int|
            0 <= j < joints.len() && (#[trigger] joints[j]).node == node && states[j].unavailable is Some,
    decreases upto,
{
    if upto > 0 {
        unavailable_joints_are_named(nodes, joints, states, upto - 1, node);
        assert(nodes.take(upto) =~= nodes.take(upto - 1).push(nodes[upto - 1]));
        crate::ordering::pushed_contains(nodes.take(upto - 1), nodes[upto - 1], node);
        crate::ordering::pushed_contains(unavailable_among(nodes, joints, states, upto - 1), nodes[upto - 1], node);
    }
}

/// An anchor may be where the axis puts it exactly when it keeps a fixed place, lies in all its
/// supports, and moves within both budgets.
pub proof fn anchors_keep_place_supports_and_budget(measure: AnchorMeasure, lock: Option<Point>, policy: Policy)
    ensures
        anchor_failure(measure, lock, policy) is None <==> {
            &&& lock matches Some(place) ==> measure.point == place && !policy.precision.lt(measure.off_axis)
            &&& forall|k: int| 0 <= k < measure.from_supports@.len() ==> !policy.precision.lt(#[trigger] measure.from_supports@[k])
            &&& measure.point[0].finite() && measure.point[1].finite() && measure.point[2].finite()
            &&& !measure.allowance.lt(measure.from_source)
            &&& !policy.junction_movement_limit.lt(measure.from_candidate)
        },
{
}

proof fn failing_anchor_found(
    measures: Seq<AnchorMeasure>,
    nodes: Seq<u32>,
    joints: Seq<Joint>,
    states: Seq<JointState>,
    policy: Policy,
    from: int,
    k: int,
)
    requires
        0 <= from <= k < nodes.len(),
        first_anchor_failure(measures, nodes, joints, states, policy, from) is None,
    ensures
        anchor_failure(measures[k], lock_at(nodes[k], joints, states), policy) is None,
    decreases nodes.len() - from,
{
    if from < k {
        failing_anchor_found(measures, nodes, joints, states, policy, from + 1, k);
    }
}

/// An axis that is not refused has a length, runs as its source does, is straight, and has
/// every anchor in its supports and within its budgets.
pub proof fn accepted_axes_are_sound(
    source: frame::Report,
    axis: frame::Axis,
    nodes: Seq<u32>,
    measure: AxisMeasure,
    joints: Seq<Joint>,
    states: Seq<JointState>,
    policy: Policy,
    k: int,
    s: int,
)
    requires
        proposal_failure(source, axis, nodes, measure, joints, states, policy) is None,
        measure.anchors@.len() == nodes.len(),
        0 <= k < nodes.len(),
        0 <= s < measure.anchors@[k].from_supports@.len(),
    ensures
        axis.spans@.len() > 0,
        !measure.reference_length.le(policy.precision),
        !measure.span_length.le(policy.precision),
        measure.direction_kept && measure.line_met,
        !measure.advance.le(Scalar::spec_zero()),
        !policy.precision.lt(measure.anchors@[k].from_supports@[s]),
        !measure.anchors@[k].allowance.lt(measure.anchors@[k].from_source),
        !policy.junction_movement_limit.lt(measure.anchors@[k].from_candidate),
        !policy.precision.lt(measure.anchors@[k].deviation),
        nodes.contains(source.node_ids@[axis.endpoints[0] as int]),
        nodes.contains(source.node_ids@[axis.endpoints[1] as int]),
{
    failing_anchor_found(measure.anchors@, nodes, joints, states, policy, 0, k);
    anchors_keep_place_supports_and_budget(measure.anchors@[k], lock_at(nodes[k], joints, states), policy);
}

/// An axis with an anchor at an unavailable joint is refused, and the joint is named.
pub proof fn unavailable_anchors_refuse_the_axis(
    source: frame::Report,
    axis: frame::Axis,
    nodes: Seq<u32>,
    measure: AxisMeasure,
    joints: Seq<Joint>,
    states: Seq<JointState>,
    policy: Policy,
    k: int,
)
    requires
        0 <= k < nodes.len(),
        unavailable_at(nodes[k], joints, states),
    ensures
        proposal_failure(source, axis, nodes, measure, joints, states, policy) matches Some(failure) && failure.0
            == "unavailable_shared_anchor"@ && failure.1.contains(nodes[k]),
{
    let bad = unavailable_among(nodes, joints, states, nodes.len() as int);
    unavailable_joints_are_named(nodes, joints, states, nodes.len() as int, nodes[k]);
    assert(nodes.take(nodes.len() as int) =~= nodes);
    assert(bad.contains(nodes[k]));
}

/// The least length is neither above the minimum nor above the reference, and one of the two.
pub proof fn least_lengths_are_least(minimum: Scalar, reference: Scalar)
    requires
        !minimum.nan(),
        !reference.nan(),
    ensures
        least_length(minimum, reference).le(minimum),
        least_length(minimum, reference).le(reference),
        least_length(minimum, reference) == minimum || least_length(minimum, reference) == reference,
{
}

/// A rebuilt span keeps its element and its stiffness, and runs between the new parameters of
/// the anchors at its ends.
pub proof fn rebuilt_spans_keep_their_property(
    spans: Seq<SourceSpan>,
    source: Seq<SourceSpan>,
    order: Seq<usize>,
    anchors: Seq<frame::Anchor>,
    measures: Seq<AnchorMeasure>,
    s: int,
    k: int,
    m: int,
)
    requires
        spans_rebuilt(spans, source, order, anchors, measures),
        0 <= s < source.len(),
        first_with_parameter(order, anchors, source[s].start_t, k),
        first_with_parameter(order, anchors, source[s].end_t, m),
    ensures
        spans.len() == source.len(),
        spans[s].element == source[s].element,
        spans[s].stiffness == source[s].stiffness,
        spans[s].start_t == measures[k].parameter,
        spans[s].end_t == measures[m].parameter,
{
    assert(span_rebuilt(spans[s], source[s], order, anchors, measures));
}

/// Every stretch runs from a cut to a later cut over pieces of its location only.
pub proof fn stretches_are_of_one_location(cuts: Seq<Scalar>, kinds: Seq<Option<Location>>, upto: int, m: int) -> (r: (int, int))
    requires
        0 <= upto <= kinds.len(),
        cuts.len() == kinds.len() + 1,
        0 <= m < merged(cuts, kinds, upto).len(),
    ensures
        0 <= r.0 < r.1 <= upto,
        merged(cuts, kinds, upto)[m].start_t == cuts[r.0],
        merged(cuts, kinds, upto)[m].end_t == cuts[r.1],
        forall|k: int| r.0 <= k < r.1 ==> #[trigger] kinds[k] == Some(merged(cuts, kinds, upto)[m].location),
        m == merged(cuts, kinds, upto).len() - 1 && kinds[upto - 1] is Some ==> r.1 == upto,
    decreases upto,
{
    if upto <= 0 {
        (0, 0)
    } else {
        let rest = merged(cuts, kinds, upto - 1);
        let all = merged(cuts, kinds, upto);
        match kinds[upto - 1] {
            None => stretches_are_of_one_location(cuts, kinds, upto - 1, m),
            Some(location) => {
                if upto >= 2 && kinds[upto - 2] == Some(location) {
                    merged_ends_with(cuts, kinds, upto - 1);
                    assert(all.len() == rest.len());
                    let r = stretches_are_of_one_location(cuts, kinds, upto - 1, m);
                    if m == all.len() - 1 {
                        assert(kinds[upto - 2] == Some(rest[m].location));
                        (r.0, upto)
                    } else {
                        assert(all[m] == rest[m]);
                        r
                    }
                } else {
                    if m == all.len() - 1 {
                        (upto - 1, upto)
                    } else {
                        assert(all[m] == rest[m]);
                        stretches_are_of_one_location(cuts, kinds, upto - 1, m)
                    }
                }
            },
        }
    }
}

} // verus!
