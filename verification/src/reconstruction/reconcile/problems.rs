//! The problems that assembly and the frame solve leave, with their evidence.
use vstd::prelude::*;
use crate::incidence::{incident_list, Incidence};
use crate::input::{ElementData, MeshData, Point};
use crate::ordering::{append_ids, ascending, copy_ids, find_id, lists_distinct, lists_id, sorted_indices, stable_order, unique};
use crate::reconstruction::assembly;
use crate::reconstruction::assembly::bars;
use crate::reconstruction::assembly::bars::joints::{anchored_before, axis_has_node};
use crate::reconstruction::frame;
use crate::reconstruction::frame::ConstraintOrigin;
use crate::reconstruction::reconcile::{Evidence, Policy, Problem, ProblemKind};
use crate::scalar::Scalar;
use crate::text::{begins_with, has_prefix, is_text};

verus! {

/// How many of the first elements are bars at the node.
pub open spec fn bars_at(elements: Seq<ElementData>, node: u32, upto: int) -> nat
    decreases upto,
{
    if upto <= 0 {
        0
    } else if elements[upto - 1].bar() && elements[upto - 1].nodes@.contains(node) {
        bars_at(elements, node, upto - 1) + 1
    } else {
        bars_at(elements, node, upto - 1)
    }
}

pub open spec fn bar_count(mesh: MeshData, node: u32) -> nat {
    bars_at(mesh.elements@, node, mesh.elements@.len() as int)
}

pub fn incident_bar_count(mesh: &MeshData, node: u32) -> (r: usize)
    ensures
        r == bar_count(*mesh, node),
{
    let mut count: usize = 0;
    let mut e: usize = 0;
    while e < mesh.elements.len()
        invariant
            e <= mesh.elements.len(),
            count <= e,
            count == bars_at(mesh.elements@, node, e as int),
        decreases mesh.elements.len() - e,
    {
        if mesh.elements[e].is_bar() && lists_id(&mesh.elements[e].nodes, node) {
            count += 1;
        }
        e += 1;
    }
    count
}

/// How many of the first axes have an anchor at the node.
pub open spec fn axes_at(axes: Seq<frame::Axis>, ids: Seq<u32>, node: u32, upto: int) -> nat
    decreases upto,
{
    if upto <= 0 {
        0
    } else if axis_has_node(axes[upto - 1], ids, node) {
        axes_at(axes, ids, node, upto - 1) + 1
    } else {
        axes_at(axes, ids, node, upto - 1)
    }
}

pub open spec fn axis_count(source: frame::Report, node: u32) -> nat {
    axes_at(source.axes@, source.node_ids@, node, source.axes@.len() as int)
}

fn has_anchor(axis: &frame::Axis, ids: &Vec<u32>, node: u32) -> (r: bool)
    ensures
        r == axis_has_node(*axis, ids@, node),
{
    let mut k: usize = 0;
    while k < axis.anchors.len()
        invariant
            k <= axis.anchors.len(),
            !anchored_before(*axis, ids@, node, k as int),
        decreases axis.anchors.len() - k,
    {
        let index: usize = axis.anchors[k].node;
        if index < ids.len() && ids[index] == node {
            assert(axis.anchors@[k as int].node < ids@.len());
            return true;
        }
        k += 1;
    }
    false
}

pub fn incident_axis_count(source: &frame::Report, node: u32) -> (r: usize)
    ensures
        r == axis_count(*source, node),
{
    let mut count: usize = 0;
    let mut a: usize = 0;
    while a < source.axes.len()
        invariant
            a <= source.axes.len(),
            count <= a,
            count == axes_at(source.axes@, source.node_ids@, node, a as int),
        decreases source.axes.len() - a,
    {
        if has_anchor(&source.axes[a], &source.node_ids, node) {
            count += 1;
        }
        a += 1;
    }
    count
}

pub open spec fn greater(so_far: Option<usize>, here: usize) -> Option<usize> {
    match so_far {
        None => Some(here),
        Some(best) => if best < here {
            Some(here)
        } else {
            Some(best)
        },
    }
}

/// The greatest number of bars at one of the first nodes.
pub open spec fn most_bars(mesh: MeshData, nodes: Seq<u32>, upto: int) -> Option<usize>
    decreases upto,
{
    if upto <= 0 {
        None
    } else {
        greater(most_bars(mesh, nodes, upto - 1), bar_count(mesh, nodes[upto - 1]) as usize)
    }
}

/// The greatest number of axes at one of the first nodes.
pub open spec fn most_axes(source: frame::Report, nodes: Seq<u32>, upto: int) -> Option<usize>
    decreases upto,
{
    if upto <= 0 {
        None
    } else {
        greater(most_axes(source, nodes, upto - 1), axis_count(source, nodes[upto - 1]) as usize)
    }
}

fn greatest_bar_count(mesh: &MeshData, nodes: &Vec<u32>) -> (r: Option<usize>)
    ensures
        r == most_bars(*mesh, nodes@, nodes@.len() as int),
{
    let mut best: Option<usize> = None;
    let mut k: usize = 0;
    while k < nodes.len()
        invariant
            k <= nodes.len(),
            best == most_bars(*mesh, nodes@, k as int),
        decreases nodes.len() - k,
    {
        let here: usize = incident_bar_count(mesh, nodes[k]);
        best = match best {
            None => Some(here),
            Some(other) => if other < here {
                Some(here)
            } else {
                Some(other)
            },
        };
        k += 1;
    }
    best
}

fn greatest_axis_count(source: &frame::Report, nodes: &Vec<u32>) -> (r: Option<usize>)
    ensures
        r == most_axes(*source, nodes@, nodes@.len() as int),
{
    let mut best: Option<usize> = None;
    let mut k: usize = 0;
    while k < nodes.len()
        invariant
            k <= nodes.len(),
            best == most_axes(*source, nodes@, k as int),
        decreases nodes.len() - k,
    {
        let here: usize = incident_axis_count(source, nodes[k]);
        best = match best {
            None => Some(here),
            Some(other) => if other < here {
                Some(here)
            } else {
                Some(other)
            },
        };
        k += 1;
    }
    best
}

/// Some node does not simply continue one bar in another.
pub open spec fn some_joint(mesh: MeshData, nodes: Seq<u32>) -> bool {
    exists|k: int| 0 <= k < nodes.len() && bar_count(mesh, #[trigger] nodes[k]) != 2
}

fn has_joint(mesh: &MeshData, nodes: &Vec<u32>) -> (r: bool)
    ensures
        r == some_joint(*mesh, nodes@),
{
    let mut k: usize = 0;
    while k < nodes.len()
        invariant
            k <= nodes.len(),
            forall|m: int| 0 <= m < k ==> bar_count(*mesh, #[trigger] nodes@[m]) == 2,
        decreases nodes.len() - k,
    {
        if incident_bar_count(mesh, nodes[k]) != 2 {
            assert(bar_count(*mesh, nodes@[k as int]) != 2);
            return true;
        }
        k += 1;
    }
    false
}

/// The distinct nodes of the anchors of an axis, ascending; none for an axis
/// that does not exist.
pub open spec fn nodes_of_axis(nodes: Seq<u32>, source: frame::Report, axis: usize) -> bool {
    &&& ascending(nodes)
    &&& forall|node: u32| #[trigger]
        nodes.contains(node) <==> axis < source.axes@.len() && axis_has_node(
            source.axes@[axis as int],
            source.node_ids@,
            node,
        )
}

#[verifier::loop_isolation(false)]
pub fn axis_source_nodes(source: &frame::Report, axis: usize) -> (r: Vec<u32>)
    ensures
        nodes_of_axis(r@, *source, axis),
{
    if axis >= source.axes.len() {
        return Vec::new();
    }
    let ghost here = source.axes@[axis as int];
    let mut all: Vec<u32> = Vec::new();
    let mut k: usize = 0;
    while k < source.axes[axis].anchors.len()
        invariant
            k <= here.anchors@.len(),
            forall|node: u32| #[trigger] all@.contains(node) <==> anchored_before(here, source.node_ids@, node, k as int),
        decreases here.anchors@.len() - k,
    {
        let ghost before = all@;
        let index: usize = source.axes[axis].anchors[k].node;
        if index < source.node_ids.len() {
            all.push(source.node_ids[index]);
        }
        proof {
            let next = k + 1;
            assert forall|node: u32| #[trigger] all@.contains(node) <==> anchored_before(here, source.node_ids@, node, next) by {
                assert(before.contains(node) <==> anchored_before(here, source.node_ids@, node, k as int));
                if all@.contains(node) {
                    let m = choose|m: int| 0 <= m < all@.len() && all@[m] == node;
                    if m < before.len() {
                        assert(before[m] == node);
                        let i = choose|i: int| 0 <= i < k && (#[trigger] here.anchors@[i]).node < source.node_ids@.len() && source.node_ids@[here.anchors@[i].node as int] == node;
                        assert(here.anchors@[i].node < source.node_ids@.len());
                    } else {
                        assert(here.anchors@[k as int].node < source.node_ids@.len());
                    }
                }
                if anchored_before(here, source.node_ids@, node, next) {
                    let i = choose|i: int| 0 <= i < next && (#[trigger] here.anchors@[i]).node < source.node_ids@.len() && source.node_ids@[here.anchors@[i].node as int] == node;
                    if i < k {
                        assert(before.contains(node));
                        let m = choose|m: int| 0 <= m < before.len() && before[m] == node;
                        assert(all@[m] == node);
                    } else {
                        assert(all@[before.len() as int] == node);
                    }
                }
            }
        }
        k += 1;
    }
    let ghost listed = all@;
    let r = unique(all);
    assert forall|node: u32| #[trigger] r@.contains(node) <==> axis_has_node(here, source.node_ids@, node) by {
        assert(r@.contains(node) <==> listed.contains(node));
    }
    r
}

pub open spec fn span_elements(axis: frame::Axis) -> Seq<u32> {
    Seq::new(axis.spans@.len(), |k: int| axis.spans@[k].element)
}

/// The distinct source bars of an axis, ascending.
pub fn axis_source_elements(axis: &frame::Axis) -> (r: Vec<u32>)
    ensures
        lists_distinct(r@, span_elements(*axis)),
{
    let mut all: Vec<u32> = Vec::new();
    let mut k: usize = 0;
    while k < axis.spans.len()
        invariant
            k <= axis.spans.len(),
            all.len() == k,
            forall|m: int| 0 <= m < k ==> #[trigger] all@[m] == axis.spans@[m].element,
        decreases axis.spans.len() - k,
    {
        all.push(axis.spans[k].element);
        k += 1;
    }
    assert(all@ =~= span_elements(*axis));
    unique(all)
}

pub open spec fn flat(rings: Seq<Vec<u32>>, upto: int) -> Seq<u32>
    decreases upto,
{
    if upto <= 0 {
        Seq::empty()
    } else {
        flat(rings, upto - 1) + rings[upto - 1]@
    }
}

pub open spec fn boundary_nodes(issue: assembly::Issue) -> Seq<u32> {
    flat(issue.boundary_source_nodes@, issue.boundary_source_nodes@.len() as int)
}

fn flattened(rings: &Vec<Vec<u32>>) -> (r: Vec<u32>)
    ensures
        r@ == flat(rings@, rings@.len() as int),
{
    let mut r: Vec<u32> = Vec::new();
    let mut k: usize = 0;
    while k < rings.len()
        invariant
            k <= rings.len(),
            r@ == flat(rings@, k as int),
        decreases rings.len() - k,
    {
        append_ids(&mut r, &rings[k]);
        k += 1;
    }
    r
}

/// The node lies on the boundary of a region that was not built.
pub open spec fn unbuilt(issues: Seq<assembly::Issue>, node: u32) -> bool {
    exists|i: int| 0 <= i < issues.len() && boundary_nodes(#[trigger] issues[i]).contains(node)
}

pub open spec fn some_unbuilt(issues: Seq<assembly::Issue>, nodes: Seq<u32>) -> bool {
    exists|k: int| 0 <= k < nodes.len() && unbuilt(issues, #[trigger] nodes[k])
}

#[verifier::loop_isolation(false)]
fn unbuilt_nodes(issues: &Vec<assembly::Issue>) -> (r: Vec<u32>)
    ensures
        ascending(r@),
        forall|node: u32| #[trigger] r@.contains(node) <==> unbuilt(issues@, node),
{
    let mut all: Vec<u32> = Vec::new();
    let mut i: usize = 0;
    while i < issues.len()
        invariant
            i <= issues.len(),
            forall|node: u32| #[trigger] all@.contains(node) <==> unbuilt(issues@.take(i as int), node),
        decreases issues.len() - i,
    {
        let ghost before = all@;
        let nodes = flattened(&issues[i].boundary_source_nodes);
        append_ids(&mut all, &nodes);
        proof {
            let short = issues@.take(i as int);
            let long = issues@.take(i + 1);
            assert forall|node: u32| #[trigger] all@.contains(node) <==> unbuilt(long, node) by {
                assert(before.contains(node) <==> unbuilt(short, node));
                if all@.contains(node) {
                    let m = choose|m: int| 0 <= m < all@.len() && all@[m] == node;
                    if m < before.len() {
                        assert(before[m] == node);
                        let j = choose|j: int| 0 <= j < short.len() && boundary_nodes(#[trigger] short[j]).contains(node);
                        assert(long[j] == short[j]);
                    } else {
                        assert(nodes@[m - before.len()] == node);
                        assert(boundary_nodes(long[i as int]).contains(node));
                    }
                }
                if unbuilt(long, node) {
                    let j = choose|j: int| 0 <= j < long.len() && boundary_nodes(#[trigger] long[j]).contains(node);
                    if j < i {
                        assert(short[j] == long[j]);
                        assert(before.contains(node));
                        let m = choose|m: int| 0 <= m < before.len() && before[m] == node;
                        assert(all@[m] == node);
                    } else {
                        let m = choose|m: int| 0 <= m < nodes@.len() && nodes@[m] == node;
                        assert(all@[before.len() + m] == node);
                    }
                }
            }
        }
        i += 1;
    }
    assert(issues@.take(issues.len() as int) =~= issues@);
    let ghost listed = all@;
    let r = unique(all);
    assert forall|node: u32| #[trigger] r@.contains(node) <==> unbuilt(issues@, node) by {
        assert(r@.contains(node) <==> listed.contains(node));
    }
    r
}

fn depends(nodes: &Vec<u32>, missing: &Vec<u32>, issues: &Vec<assembly::Issue>) -> (r: bool)
    requires
        ascending(missing@),
        forall|node: u32| #[trigger] missing@.contains(node) <==> unbuilt(issues@, node),
    ensures
        r == some_unbuilt(issues@, nodes@),
{
    let mut k: usize = 0;
    while k < nodes.len()
        invariant
            ascending(missing@),
            forall|node: u32| #[trigger] missing@.contains(node) <==> unbuilt(issues@, node),
            k <= nodes.len(),
            forall|m: int| 0 <= m < k ==> !unbuilt(issues@, #[trigger] nodes@[m]),
        decreases nodes.len() - k,
    {
        match find_id(missing, nodes[k]) {
            Some(_) => {
                assert(missing@.contains(nodes@[k as int]));
                assert(unbuilt(issues@, nodes@[k as int]));
                return true;
            },
            None => {
                assert(!missing@.contains(nodes@[k as int]));
            },
        }
        k += 1;
    }
    false
}

/// Nothing but a scale.
pub open spec fn no_evidence(scale: Scalar) -> Evidence {
    Evidence {
        local_scale: scale,
        residual: None,
        movement: None,
        movement_budget: None,
        original_length: None,
        candidate_length: None,
        normalized_hole_area: None,
        boundary_count: None,
        direct_bar_degree: None,
        direct_axis_count: None,
        structural_joint: false,
        depends_on_unbuilt_surface: false,
    }
}

fn blank_evidence() -> (r: Evidence)
    ensures
        r == no_evidence(Scalar::spec_one()),
{
    Evidence {
        local_scale: Scalar::one(),
        residual: None,
        movement: None,
        movement_budget: None,
        original_length: None,
        candidate_length: None,
        normalized_hole_area: None,
        boundary_count: None,
        direct_bar_degree: None,
        direct_axis_count: None,
        structural_joint: false,
        depends_on_unbuilt_surface: false,
    }
}

/// A hole of unknown area counts as within the policy.
pub open spec fn hole_degenerate(area: Option<Scalar>, policy: Policy) -> bool {
    match area {
        Some(ratio) => ratio.finite() && ratio.le(policy.hole_degeneracy_ratio),
        None => true,
    }
}

pub open spec fn surface_kind(reason: Seq<char>, area: Option<Scalar>, policy: Policy) -> ProblemKind {
    if reason == "degenerate_hole_after_closure"@ && hole_degenerate(area, policy) {
        ProblemKind::DegenerateHole
    } else if begins_with(reason, "contour_"@) {
        ProblemKind::InvalidSurfaceContour
    } else {
        ProblemKind::OtherSurfaceTopology
    }
}

fn kind_of_surface(reason: &String, area: &Option<Scalar>, policy: &Policy) -> (r: ProblemKind)
    ensures
        r == surface_kind(reason@, *area, *policy),
{
    let within: bool = match area {
        Some(ratio) => ratio.is_finite() && ratio.at_most(&policy.hole_degeneracy_ratio),
        None => true,
    };
    if is_text(reason.as_str(), "degenerate_hole_after_closure") && within {
        ProblemKind::DegenerateHole
    } else if has_prefix(reason.as_str(), "contour_") {
        ProblemKind::InvalidSurfaceContour
    } else {
        ProblemKind::OtherSurfaceTopology
    }
}

pub open spec fn axis_kind(reason: Seq<char>) -> ProblemKind {
    if reason == "shared_anchors_not_collinear"@ {
        ProblemKind::NonCollinearSharedAnchor
    } else if reason == "unavailable_shared_anchor"@ {
        ProblemKind::UnavailableSharedAnchor
    } else {
        ProblemKind::OtherAxisAssembly
    }
}

fn kind_of_axis(reason: &String) -> (r: ProblemKind)
    ensures
        r == axis_kind(reason@),
{
    if is_text(reason.as_str(), "shared_anchors_not_collinear") {
        ProblemKind::NonCollinearSharedAnchor
    } else if is_text(reason.as_str(), "unavailable_shared_anchor") {
        ProblemKind::UnavailableSharedAnchor
    } else {
        ProblemKind::OtherAxisAssembly
    }
}

/// The problem of a region that was not built.
pub open spec fn surface_problem(
    problem: Problem,
    issue: assembly::Issue,
    area: Option<Scalar>,
    issues: Seq<assembly::Issue>,
    policy: Policy,
) -> bool {
    &&& problem.kind == surface_kind(issue.reason@, area, policy)
    &&& problem.patch == Some(issue.patch)
    &&& problem.axis is None
    &&& lists_distinct(problem.source_elements@, issue.source_elements@)
    &&& lists_distinct(problem.source_nodes@, boundary_nodes(issue))
    &&& problem.evidence == (Evidence {
        normalized_hole_area: area,
        boundary_count: Some(issue.boundary_source_nodes@.len() as usize),
        depends_on_unbuilt_surface: some_unbuilt(issues, problem.source_nodes@),
        ..no_evidence(problem.evidence.local_scale)
    })
}

pub open spec fn more_than_one(count: Option<usize>) -> bool {
    match count {
        Some(number) => number > 1,
        None => false,
    }
}

pub open spec fn not_two(count: Option<usize>) -> bool {
    match count {
        Some(number) => number != 2,
        None => false,
    }
}

/// The problem of an axis that was not built.
pub open spec fn axis_problem(
    problem: Problem,
    issue: bars::Issue,
    mesh: MeshData,
    source: frame::Report,
    issues: Seq<assembly::Issue>,
) -> bool {
    let nodes = problem.source_nodes@;
    let degree = most_bars(mesh, nodes, nodes.len() as int);
    let axes = most_axes(source, nodes, nodes.len() as int);
    &&& problem.kind == axis_kind(issue.reason@)
    &&& problem.patch is None
    &&& problem.axis == Some(issue.source_axis)
    &&& lists_distinct(problem.source_elements@, issue.source_elements@)
    &&& lists_distinct(nodes, issue.source_nodes@)
    &&& problem.evidence == (Evidence {
        direct_bar_degree: degree,
        direct_axis_count: axes,
        structural_joint: not_two(degree) || more_than_one(axes),
        depends_on_unbuilt_surface: some_unbuilt(issues, nodes),
        ..no_evidence(problem.evidence.local_scale)
    })
}

pub open spec fn single(nodes: Seq<u32>, node: u32) -> bool {
    nodes == seq![node]
}

pub open spec fn origin_axis(origin: ConstraintOrigin) -> Option<usize> {
    match origin {
        ConstraintOrigin::AxisAnchor { axis, node_id, component } => Some(axis),
        ConstraintOrigin::ShortAxisVector { axis, component } => Some(axis),
        ConstraintOrigin::AxisDirection { axis } => Some(axis),
        ConstraintOrigin::PlaneIncidence { plane, node_id } => None,
    }
}

pub open spec fn origin_plane(origin: ConstraintOrigin) -> Option<usize> {
    match origin {
        ConstraintOrigin::PlaneIncidence { plane, node_id } => Some(plane),
        _ => None,
    }
}

pub open spec fn origin_nodes(nodes: Seq<u32>, origin: ConstraintOrigin, source: frame::Report) -> bool {
    match origin {
        ConstraintOrigin::AxisAnchor { axis, node_id, component } => single(nodes, node_id),
        ConstraintOrigin::ShortAxisVector { axis, component } => nodes_of_axis(nodes, source, axis),
        ConstraintOrigin::AxisDirection { axis } => nodes_of_axis(nodes, source, axis),
        ConstraintOrigin::PlaneIncidence { plane, node_id } => single(nodes, node_id),
    }
}

pub open spec fn origin_elements(elements: Seq<u32>, origin: ConstraintOrigin, source: frame::Report) -> bool {
    match (origin_axis(origin), origin_plane(origin)) {
        (Some(axis), _) => if axis < source.axes@.len() {
            lists_distinct(elements, span_elements(source.axes@[axis as int]))
        } else {
            elements.len() == 0
        },
        (None, Some(plane)) => if plane < source.surfaces@.len() {
            lists_distinct(elements, source.surfaces@[plane as int].source_elements@)
        } else {
            elements.len() == 0
        },
        (None, None) => elements.len() == 0,
    }
}

/// The problem of an equation that the solve leaves unmet.
pub open spec fn constraint_problem(
    problem: Problem,
    failure: frame::ConstraintFailure,
    mesh: MeshData,
    source: frame::Report,
    issues: Seq<assembly::Issue>,
) -> bool {
    let nodes = problem.source_nodes@;
    let axis = origin_axis(failure.origin);
    &&& problem.kind == ProblemKind::ContinuousConstraintResidual
    &&& problem.patch == origin_plane(failure.origin)
    &&& problem.axis == axis
    &&& origin_nodes(nodes, failure.origin, source)
    &&& origin_elements(problem.source_elements@, failure.origin, source)
    &&& problem.evidence == (Evidence {
        residual: Some(failure.residual.spec_abs()),
        direct_bar_degree: if axis is Some {
            most_bars(mesh, nodes, nodes.len() as int)
        } else {
            None
        },
        direct_axis_count: if axis is Some {
            most_axes(source, nodes, nodes.len() as int)
        } else {
            None
        },
        structural_joint: axis is Some && some_joint(mesh, nodes),
        depends_on_unbuilt_surface: some_unbuilt(issues, nodes),
        ..no_evidence(problem.evidence.local_scale)
    })
}

/// The problem of a node that would move beyond its budget.
pub open spec fn movement_problem(
    problem: Problem,
    node: u32,
    movement: Option<Scalar>,
    budget: Option<Scalar>,
    mesh: MeshData,
    source: frame::Report,
) -> bool {
    &&& problem.kind == ProblemKind::ContinuousMovementBudget
    &&& problem.patch is None
    &&& problem.axis is None
    &&& incident_list(problem.source_elements@, mesh.elements@, node)
    &&& single(problem.source_nodes@, node)
    &&& problem.evidence == (Evidence {
        movement,
        movement_budget: budget,
        direct_bar_degree: Some(bar_count(mesh, node) as usize),
        direct_axis_count: Some(axis_count(source, node) as usize),
        structural_joint: bar_count(mesh, node) != 2,
        ..no_evidence(problem.evidence.local_scale)
    })
}

/// The problem of an axis that the candidate shortens or turns.
pub open spec fn axis_failure_problem(
    problem: Problem,
    failure: frame::AxisFailure,
    mesh: MeshData,
    source: frame::Report,
    issues: Seq<assembly::Issue>,
) -> bool {
    let nodes = problem.source_nodes@;
    &&& problem.kind == ProblemKind::ContinuousAxisFailure
    &&& problem.patch is None
    &&& problem.axis == Some(failure.axis)
    &&& lists_distinct(problem.source_elements@, failure.source_elements@)
    &&& nodes_of_axis(nodes, source, failure.axis)
    &&& problem.evidence == (Evidence {
        original_length: Some(failure.original_length),
        candidate_length: Some(failure.candidate_length),
        direct_bar_degree: most_bars(mesh, nodes, nodes.len() as int),
        direct_axis_count: most_axes(source, nodes, nodes.len() as int),
        structural_joint: some_joint(mesh, nodes),
        depends_on_unbuilt_surface: some_unbuilt(issues, nodes),
        ..no_evidence(problem.evidence.local_scale)
    })
}

/// A problem of the solve as a whole.
pub open spec fn global_problem(problem: Problem, kind: ProblemKind, residual: Scalar) -> bool {
    &&& problem.kind == kind
    &&& problem.patch is None
    &&& problem.axis is None
    &&& problem.source_elements@.len() == 0
    &&& problem.source_nodes@.len() == 0
    &&& problem.evidence == (Evidence { residual: Some(residual), ..no_evidence(Scalar::spec_one()) })
}

pub open spec fn reported(failures: Seq<frame::MovementFailure>, node: u32) -> bool {
    exists|k: int| 0 <= k < failures.len() && (#[trigger] failures[k]).node_id == node
}

/// The nodes over their budget that no movement failure reports.
pub open spec fn silent_nodes(over: Seq<u32>, failures: Seq<frame::MovementFailure>, upto: int) -> Seq<u32>
    decreases upto,
{
    if upto <= 0 {
        Seq::empty()
    } else if reported(failures, over[upto - 1]) {
        silent_nodes(over, failures, upto - 1)
    } else {
        silent_nodes(over, failures, upto - 1).push(over[upto - 1])
    }
}

fn is_reported(failures: &Vec<frame::MovementFailure>, node: u32) -> (r: bool)
    ensures
        r == reported(failures@, node),
{
    let mut k: usize = 0;
    while k < failures.len()
        invariant
            k <= failures.len(),
            forall|m: int| 0 <= m < k ==> (#[trigger] failures@[m]).node_id != node,
        decreases failures.len() - k,
    {
        if failures[k].node_id == node {
            return true;
        }
        k += 1;
    }
    false
}

/// The equations beyond those listed one by one leave a problem of their own.
pub open spec fn residual_hidden(source: frame::Report) -> bool {
    source.violating_equations > source.largest_constraint_failures@.len()
}

/// Where each sort of problem starts in the list.
pub open spec fn axis_start(topology: assembly::Report) -> int {
    topology.issues@.len() as int
}

pub open spec fn constraint_start(topology: assembly::Report) -> int {
    axis_start(topology) + topology.axis_assembly.issues@.len()
}

pub open spec fn movement_start(source: frame::Report, topology: assembly::Report) -> int {
    constraint_start(topology) + source.largest_constraint_failures@.len()
}

pub open spec fn silent_start(source: frame::Report, topology: assembly::Report) -> int {
    movement_start(source, topology) + source.movement_failures@.len()
}

pub open spec fn silent(source: frame::Report) -> Seq<u32> {
    silent_nodes(
        source.candidate_over_budget_node_ids@,
        source.movement_failures@,
        source.candidate_over_budget_node_ids@.len() as int,
    )
}

pub open spec fn axis_failure_start(source: frame::Report, topology: assembly::Report) -> int {
    silent_start(source, topology) + silent(source).len()
}

pub open spec fn global_start(source: frame::Report, topology: assembly::Report) -> int {
    axis_failure_start(source, topology) + source.axis_failures@.len()
}

pub open spec fn numbered(problems: Seq<Problem>) -> bool {
    forall|i: int|
        0 <= i < problems.len() ==> (#[trigger] problems[i]).id == i && problems[i].component == 0
}

/// No local scale was measured yet.
pub open spec fn unmeasured(problems: Seq<Problem>) -> bool {
    forall|i: int| 0 <= i < problems.len() ==> (#[trigger] problems[i]).evidence.local_scale == Scalar::spec_one()
}

pub open spec fn surface_part(
    problems: Seq<Problem>,
    topology: assembly::Report,
    areas: Seq<Option<Scalar>>,
    policy: Policy,
    upto: int,
) -> bool {
    forall|i: int|
        0 <= i < upto ==> surface_problem(
            #[trigger] problems[i],
            topology.issues@[i],
            areas[i],
            topology.issues@,
            policy,
        )
}

pub open spec fn axis_part(
    problems: Seq<Problem>,
    mesh: MeshData,
    source: frame::Report,
    topology: assembly::Report,
    upto: int,
) -> bool {
    forall|i: int|
        axis_start(topology) <= i < upto ==> axis_problem(
            #[trigger] problems[i],
            topology.axis_assembly.issues@[i - axis_start(topology)],
            mesh,
            source,
            topology.issues@,
        )
}

pub open spec fn constraint_part(
    problems: Seq<Problem>,
    mesh: MeshData,
    source: frame::Report,
    topology: assembly::Report,
    upto: int,
) -> bool {
    forall|i: int|
        constraint_start(topology) <= i < upto ==> constraint_problem(
            #[trigger] problems[i],
            source.largest_constraint_failures@[i - constraint_start(topology)],
            mesh,
            source,
            topology.issues@,
        )
}

pub open spec fn movement_part(
    problems: Seq<Problem>,
    mesh: MeshData,
    source: frame::Report,
    topology: assembly::Report,
    upto: int,
) -> bool {
    forall|i: int|
        movement_start(source, topology) <= i < upto ==> {
            let failure = source.movement_failures@[i - movement_start(source, topology)];
            movement_problem(
                #[trigger] problems[i],
                failure.node_id,
                Some(failure.movement),
                Some(failure.budget),
                mesh,
                source,
            )
        }
}

pub open spec fn silent_part(
    problems: Seq<Problem>,
    mesh: MeshData,
    source: frame::Report,
    topology: assembly::Report,
    upto: int,
) -> bool {
    forall|i: int|
        silent_start(source, topology) <= i < upto ==> movement_problem(
            #[trigger] problems[i],
            silent(source)[i - silent_start(source, topology)],
            None,
            None,
            mesh,
            source,
        )
}

pub open spec fn axis_failure_part(
    problems: Seq<Problem>,
    mesh: MeshData,
    source: frame::Report,
    topology: assembly::Report,
    upto: int,
) -> bool {
    forall|i: int|
        axis_failure_start(source, topology) <= i < upto ==> axis_failure_problem(
            #[trigger] problems[i],
            source.axis_failures@[i - axis_failure_start(source, topology)],
            mesh,
            source,
            topology.issues@,
        )
}

pub open spec fn global_part(problems: Seq<Problem>, source: frame::Report, topology: assembly::Report) -> bool {
    let start = global_start(source, topology);
    if residual_hidden(source) {
        &&& problems.len() == start + 1
        &&& global_problem(
            problems[start],
            ProblemKind::ContinuousConstraintResidual,
            source.candidate_max_residual,
        )
    } else if !source.accepted && start == constraint_start(topology) {
        &&& problems.len() == start + 1
        &&& global_problem(
            problems[start],
            ProblemKind::ContinuousSolveFailure,
            source.candidate_max_residual,
        )
    } else {
        problems.len() == start
    }
}

/// What is measured around a problem.
#[derive(Debug)]
pub struct ScaleMeasure {
    /// Lengths of its sides, as `scale_sides` lists them.
    pub sides: Vec<Scalar>,
    /// Distances between its placed nodes.
    pub distances: Vec<Scalar>,
}

/// Every problem has the local scale that was measured around it.
pub open spec fn scaled(problems: Seq<Problem>, measures: Seq<ScaleMeasure>) -> bool {
    forall|i: int|
        0 <= i < measures.len() ==> local_scale_of(
            (#[trigger] problems[i]).evidence.local_scale,
            measures[i].sides@,
            measures[i].distances@,
        )
}

/// The problems that have a place, in their order.
pub open spec fn located(
    problems: Seq<Problem>,
    mesh: MeshData,
    source: frame::Report,
    topology: assembly::Report,
    areas: Seq<Option<Scalar>>,
    policy: Policy,
) -> bool {
    &&& numbered(problems)
    &&& surface_part(problems, topology, areas, policy, axis_start(topology))
    &&& axis_part(problems, mesh, source, topology, constraint_start(topology))
    &&& constraint_part(problems, mesh, source, topology, movement_start(source, topology))
    &&& movement_part(problems, mesh, source, topology, silent_start(source, topology))
    &&& silent_part(problems, mesh, source, topology, axis_failure_start(source, topology))
    &&& axis_failure_part(problems, mesh, source, topology, global_start(source, topology))
}

/// The problems that assembly and the frame solve leave, in their order. One of the
/// solve as a whole comes last and has the scale one.
pub open spec fn problems_of(
    problems: Seq<Problem>,
    mesh: MeshData,
    source: frame::Report,
    topology: assembly::Report,
    areas: Seq<Option<Scalar>>,
    measures: Seq<ScaleMeasure>,
    policy: Policy,
) -> bool {
    &&& located(problems, mesh, source, topology, areas, policy)
    &&& scaled(problems, measures)
    &&& global_part(problems, source, topology)
}

fn one_node(node: u32) -> (r: Vec<u32>)
    ensures
        single(r@, node),
{
    let mut r: Vec<u32> = Vec::new();
    r.push(node);
    assert(r@ =~= seq![node]);
    r
}

#[verifier::loop_isolation(false)]
fn surface_problems(topology: &assembly::Report, areas: &Vec<Option<Scalar>>, policy: &Policy, missing: &Vec<u32>) -> (r:
    Vec<Problem>)
    requires
        areas@.len() == topology.issues@.len(),
        ascending(missing@),
        forall|node: u32| #[trigger] missing@.contains(node) <==> unbuilt(topology.issues@, node),
    ensures
        numbered(r@),
        unmeasured(r@),
        r@.len() == topology.issues@.len(),
        surface_part(r@, *topology, areas@, *policy, axis_start(*topology)),
{
    let mut problems: Vec<Problem> = Vec::new();
    let mut i: usize = 0;
    while i < topology.issues.len()
        invariant
            i <= topology.issues.len(),
            problems.len() == i,
            numbered(problems@),
            unmeasured(problems@),
            surface_part(problems@, *topology, areas@, *policy, i as int),
        decreases topology.issues.len() - i,
    {
        let issue = &topology.issues[i];
        let source_nodes = unique(flattened(&issue.boundary_source_nodes));
        let mut evidence = blank_evidence();
        evidence.normalized_hole_area = areas[i];
        evidence.boundary_count = Some(issue.boundary_source_nodes.len());
        evidence.depends_on_unbuilt_surface = depends(&source_nodes, missing, &topology.issues);
        let problem = Problem {
            id: i,
            component: 0,
            kind: kind_of_surface(&issue.reason, &areas[i], policy),
            patch: Some(issue.patch),
            axis: None,
            source_elements: unique(copy_ids(&issue.source_elements)),
            source_nodes,
            evidence,
        };
        assert(surface_problem(problem, *issue, areas@[i as int], topology.issues@, *policy));
        problems.push(problem);
        i += 1;
    }
    problems
}

#[verifier::loop_isolation(false)]
fn axis_problems(
    problems: &mut Vec<Problem>,
    mesh: &MeshData,
    source: &frame::Report,
    topology: &assembly::Report,
    missing: &Vec<u32>,
)
    requires
        numbered(old(problems)@),
        unmeasured(old(problems)@),
        old(problems)@.len() == axis_start(*topology),
        ascending(missing@),
        forall|node: u32| #[trigger] missing@.contains(node) <==> unbuilt(topology.issues@, node),
    ensures
        numbered(final(problems)@),
        unmeasured(final(problems)@),
        final(problems)@.len() == constraint_start(*topology),
        final(problems)@.take(axis_start(*topology)) == old(problems)@,
        axis_part(final(problems)@, *mesh, *source, *topology, constraint_start(*topology)),
{
    let ghost start = problems@;
    let ghost base = axis_start(*topology);
    let mut i: usize = 0;
    while i < topology.axis_assembly.issues.len()
        invariant
            i <= topology.axis_assembly.issues.len(),
            problems@.len() == base + i,
            problems@.take(base) =~= start,
            numbered(problems@),
            unmeasured(problems@),
            axis_part(problems@, *mesh, *source, *topology, base + i),
        decreases topology.axis_assembly.issues.len() - i,
    {
        let issue = &topology.axis_assembly.issues[i];
        let source_nodes = unique(copy_ids(&issue.source_nodes));
        let degree = greatest_bar_count(mesh, &source_nodes);
        let axes = greatest_axis_count(source, &source_nodes);
        let branching: bool = match degree {
            Some(number) => number != 2,
            None => false,
        };
        let shared: bool = match axes {
            Some(number) => number > 1,
            None => false,
        };
        let mut evidence = blank_evidence();
        evidence.direct_bar_degree = degree;
        evidence.direct_axis_count = axes;
        evidence.structural_joint = branching || shared;
        evidence.depends_on_unbuilt_surface = depends(&source_nodes, missing, &topology.issues);
        let problem = Problem {
            id: problems.len(),
            component: 0,
            kind: kind_of_axis(&issue.reason),
            patch: None,
            axis: Some(issue.source_axis),
            source_elements: unique(copy_ids(&issue.source_elements)),
            source_nodes,
            evidence,
        };
        assert(axis_problem(problem, *issue, *mesh, *source, topology.issues@));
        problems.push(problem);
        assert(problems@.take(base) =~= start);
        i += 1;
    }
}

#[verifier::loop_isolation(false)]
fn constraint_problems(
    problems: &mut Vec<Problem>,
    mesh: &MeshData,
    source: &frame::Report,
    topology: &assembly::Report,
    missing: &Vec<u32>,
)
    requires
        numbered(old(problems)@),
        unmeasured(old(problems)@),
        old(problems)@.len() == constraint_start(*topology),
        ascending(missing@),
        forall|node: u32| #[trigger] missing@.contains(node) <==> unbuilt(topology.issues@, node),
    ensures
        numbered(final(problems)@),
        unmeasured(final(problems)@),
        final(problems)@.len() == movement_start(*source, *topology),
        final(problems)@.take(constraint_start(*topology)) == old(problems)@,
        constraint_part(final(problems)@, *mesh, *source, *topology, movement_start(*source, *topology)),
{
    let ghost start = problems@;
    let ghost base = constraint_start(*topology);
    let mut i: usize = 0;
    while i < source.largest_constraint_failures.len()
        invariant
            i <= source.largest_constraint_failures.len(),
            problems@.len() == base + i,
            problems@.take(base) =~= start,
            numbered(problems@),
            unmeasured(problems@),
            constraint_part(problems@, *mesh, *source, *topology, base + i),
        decreases source.largest_constraint_failures.len() - i,
    {
        let failure = source.largest_constraint_failures[i];
        let mut axis: Option<usize> = None;
        let mut patch: Option<usize> = None;
        let source_nodes = match failure.origin {
            ConstraintOrigin::AxisAnchor { axis: index, node_id, component: _ } => {
                axis = Some(index);
                one_node(node_id)
            },
            ConstraintOrigin::ShortAxisVector { axis: index, component: _ } => {
                axis = Some(index);
                axis_source_nodes(source, index)
            },
            ConstraintOrigin::AxisDirection { axis: index } => {
                axis = Some(index);
                axis_source_nodes(source, index)
            },
            ConstraintOrigin::PlaneIncidence { plane, node_id } => {
                patch = Some(plane);
                one_node(node_id)
            },
        };
        let mut source_elements: Vec<u32> = Vec::new();
        let mut evidence = blank_evidence();
        evidence.residual = Some(failure.residual.abs());
        match axis {
            Some(index) => {
                if index < source.axes.len() {
                    source_elements = axis_source_elements(&source.axes[index]);
                }
                evidence.direct_bar_degree = greatest_bar_count(mesh, &source_nodes);
                evidence.direct_axis_count = greatest_axis_count(source, &source_nodes);
                evidence.structural_joint = has_joint(mesh, &source_nodes);
            },
            None => {
                match patch {
                    Some(plane) => {
                        if plane < source.surfaces.len() {
                            source_elements = unique(copy_ids(&source.surfaces[plane].source_elements));
                        }
                    },
                    None => {
                    },
                }
            },
        }
        evidence.depends_on_unbuilt_surface = depends(&source_nodes, missing, &topology.issues);
        let problem = Problem {
            id: problems.len(),
            component: 0,
            kind: ProblemKind::ContinuousConstraintResidual,
            patch,
            axis,
            source_elements,
            source_nodes,
            evidence,
        };
        assert(constraint_problem(problem, failure, *mesh, *source, topology.issues@));
        problems.push(problem);
        assert(problems@.take(base) =~= start);
        i += 1;
    }
}

fn movement_entry(
    id: usize,
    mesh: &MeshData,
    incidence: &Incidence,
    source: &frame::Report,
    node: u32,
    movement: Option<Scalar>,
    budget: Option<Scalar>,
) -> (r: Problem)
    requires
        incidence.describes(mesh.elements@),
    ensures
        r.evidence.local_scale == Scalar::spec_one(),
        r.id == id,
        r.component == 0,
        movement_problem(r, node, movement, budget, *mesh, *source),
{
    let source_elements = incidence.of(node);
    assert(incident_list(source_elements@, mesh.elements@, node));
    let degree: usize = incident_bar_count(mesh, node);
    let mut evidence = blank_evidence();
    evidence.movement = movement;
    evidence.movement_budget = budget;
    evidence.direct_bar_degree = Some(degree);
    evidence.direct_axis_count = Some(incident_axis_count(source, node));
    evidence.structural_joint = degree != 2;
    Problem {
        id,
        component: 0,
        kind: ProblemKind::ContinuousMovementBudget,
        patch: None,
        axis: None,
        source_elements,
        source_nodes: one_node(node),
        evidence,
    }
}

#[verifier::loop_isolation(false)]
fn movement_problems(
    problems: &mut Vec<Problem>,
    mesh: &MeshData,
    incidence: &Incidence,
    source: &frame::Report,
    topology: &assembly::Report,
)
    requires
        incidence.describes(mesh.elements@),
        numbered(old(problems)@),
        unmeasured(old(problems)@),
        old(problems)@.len() == movement_start(*source, *topology),
    ensures
        numbered(final(problems)@),
        unmeasured(final(problems)@),
        final(problems)@.len() == axis_failure_start(*source, *topology),
        final(problems)@.take(movement_start(*source, *topology)) == old(problems)@,
        movement_part(final(problems)@, *mesh, *source, *topology, silent_start(*source, *topology)),
        silent_part(final(problems)@, *mesh, *source, *topology, axis_failure_start(*source, *topology)),
{
    let ghost start = problems@;
    let ghost base = movement_start(*source, *topology);
    let mut i: usize = 0;
    while i < source.movement_failures.len()
        invariant
            i <= source.movement_failures.len(),
            problems@.len() == base + i,
            problems@.take(base) =~= start,
            numbered(problems@),
            unmeasured(problems@),
            movement_part(problems@, *mesh, *source, *topology, base + i),
        decreases source.movement_failures.len() - i,
    {
        let failure = source.movement_failures[i];
        let problem = movement_entry(
            problems.len(),
            mesh,
            incidence,
            source,
            failure.node_id,
            Some(failure.movement),
            Some(failure.budget),
        );
        problems.push(problem);
        assert(problems@.take(base) =~= start);
        i += 1;
    }
    let ghost next = silent_start(*source, *topology);
    let ghost over = source.candidate_over_budget_node_ids@;
    let ghost failures = source.movement_failures@;
    let mut i: usize = 0;
    while i < source.candidate_over_budget_node_ids.len()
        invariant
            i <= source.candidate_over_budget_node_ids.len(),
            problems@.len() == next + silent_nodes(over, failures, i as int).len(),
            problems@.take(base) =~= start,
            numbered(problems@),
            unmeasured(problems@),
            movement_part(problems@, *mesh, *source, *topology, next),
            forall|k: int|
                next <= k < problems@.len() ==> movement_problem(
                    #[trigger] problems@[k],
                    silent_nodes(over, failures, i as int)[k - next],
                    None,
                    None,
                    *mesh,
                    *source,
                ),
        decreases source.candidate_over_budget_node_ids.len() - i,
    {
        let node: u32 = source.candidate_over_budget_node_ids[i];
        if !is_reported(&source.movement_failures, node) {
            let ghost before = problems@;
            let problem = movement_entry(problems.len(), mesh, incidence, source, node, None, None);
            problems.push(problem);
            proof {
                assert(problems@.take(base) =~= start);
                let rest = silent_nodes(over, failures, i as int);
                assert forall|k: int| next <= k < problems@.len() implies movement_problem(
                    #[trigger] problems@[k],
                    rest.push(node)[k - next],
                    None,
                    None,
                    *mesh,
                    *source,
                ) by {
                    if k < before.len() {
                        assert(problems@[k] == before[k]);
                    }
                }
            }
        }
        i += 1;
    }
}

#[verifier::loop_isolation(false)]
fn axis_failure_problems(
    problems: &mut Vec<Problem>,
    mesh: &MeshData,
    source: &frame::Report,
    topology: &assembly::Report,
    missing: &Vec<u32>,
)
    requires
        numbered(old(problems)@),
        unmeasured(old(problems)@),
        old(problems)@.len() == axis_failure_start(*source, *topology),
        ascending(missing@),
        forall|node: u32| #[trigger] missing@.contains(node) <==> unbuilt(topology.issues@, node),
    ensures
        numbered(final(problems)@),
        unmeasured(final(problems)@),
        final(problems)@.len() == global_start(*source, *topology),
        final(problems)@.take(axis_failure_start(*source, *topology)) == old(problems)@,
        axis_failure_part(final(problems)@, *mesh, *source, *topology, global_start(*source, *topology)),
{
    let ghost start = problems@;
    let ghost base = axis_failure_start(*source, *topology);
    let mut i: usize = 0;
    while i < source.axis_failures.len()
        invariant
            i <= source.axis_failures.len(),
            problems@.len() == base + i,
            problems@.take(base) =~= start,
            numbered(problems@),
            unmeasured(problems@),
            axis_failure_part(problems@, *mesh, *source, *topology, base + i),
        decreases source.axis_failures.len() - i,
    {
        let failure = &source.axis_failures[i];
        let source_nodes = axis_source_nodes(source, failure.axis);
        let mut evidence = blank_evidence();
        evidence.original_length = Some(failure.original_length);
        evidence.candidate_length = Some(failure.candidate_length);
        evidence.direct_bar_degree = greatest_bar_count(mesh, &source_nodes);
        evidence.direct_axis_count = greatest_axis_count(source, &source_nodes);
        evidence.structural_joint = has_joint(mesh, &source_nodes);
        evidence.depends_on_unbuilt_surface = depends(&source_nodes, missing, &topology.issues);
        let problem = Problem {
            id: problems.len(),
            component: 0,
            kind: ProblemKind::ContinuousAxisFailure,
            patch: None,
            axis: Some(failure.axis),
            source_elements: unique(copy_ids(&failure.source_elements)),
            source_nodes,
            evidence,
        };
        assert(axis_failure_problem(problem, *failure, *mesh, *source, topology.issues@));
        problems.push(problem);
        assert(problems@.take(base) =~= start);
        i += 1;
    }
}

fn global_entry(id: usize, kind: ProblemKind, residual: Scalar) -> (r: Problem)
    ensures
        r.id == id,
        r.component == 0,
        global_problem(r, kind, residual),
{
    let mut evidence = blank_evidence();
    evidence.residual = Some(residual);
    Problem {
        id,
        component: 0,
        kind,
        patch: None,
        axis: None,
        source_elements: Vec::new(),
        source_nodes: Vec::new(),
        evidence,
    }
}

/// Collects the problems of an assembly and of the frame it was made from that have a
/// place. Their local scales are not measured yet. `areas` gives, for each surface
/// issue, the area of its first hole over the square of its extent, where that is known.
pub fn locate_problems(
    mesh: &MeshData,
    source: &frame::Report,
    topology: &assembly::Report,
    areas: &Vec<Option<Scalar>>,
    policy: &Policy,
) -> (problems: Vec<Problem>)
    requires
        areas@.len() == topology.issues@.len(),
    ensures
        located(problems@, *mesh, *source, *topology, areas@, *policy),
        unmeasured(problems@),
        problems@.len() == global_start(*source, *topology),
{
    let missing = unbuilt_nodes(&topology.issues);
    let incidence = Incidence::of_mesh(mesh);
    let mut problems = surface_problems(topology, areas, policy, &missing);
    let ghost first = problems@;
    axis_problems(&mut problems, mesh, source, topology, &missing);
    let ghost second = problems@;
    constraint_problems(&mut problems, mesh, source, topology, &missing);
    let ghost third = problems@;
    movement_problems(&mut problems, mesh, &incidence, source, topology);
    let ghost fourth = problems@;
    axis_failure_problems(&mut problems, mesh, source, topology, &missing);
    let ghost fifth = problems@;
    proof {
        assert forall|i: int| 0 <= i < fifth.len() implies problems@[i] == #[trigger] fifth[i] by {
        }
        assert forall|i: int| 0 <= i < fourth.len() implies problems@[i] == #[trigger] fourth[i] by {
            assert(fifth.take(fourth.len() as int)[i] == fourth[i]);
            assert(fifth[i] == fourth[i]);
        }
        assert forall|i: int| 0 <= i < third.len() implies problems@[i] == #[trigger] third[i] by {
            assert(fourth.take(third.len() as int)[i] == third[i]);
            assert(fourth[i] == third[i]);
        }
        assert forall|i: int| 0 <= i < second.len() implies problems@[i] == #[trigger] second[i] by {
            assert(third.take(second.len() as int)[i] == second[i]);
            assert(third[i] == second[i]);
        }
        assert forall|i: int| 0 <= i < first.len() implies problems@[i] == #[trigger] first[i] by {
            assert(second.take(first.len() as int)[i] == first[i]);
            assert(second[i] == first[i]);
        }
        assert(surface_part(problems@, *topology, areas@, *policy, axis_start(*topology))) by {
            assert forall|i: int| 0 <= i < axis_start(*topology) implies surface_problem(
                #[trigger] problems@[i],
                topology.issues@[i],
                areas@[i],
                topology.issues@,
                *policy,
            ) by {
                assert(problems@[i] == first[i]);
            }
        }
        assert(axis_part(problems@, *mesh, *source, *topology, constraint_start(*topology))) by {
            assert forall|i: int| axis_start(*topology) <= i < constraint_start(*topology) implies axis_problem(
                #[trigger] problems@[i],
                topology.axis_assembly.issues@[i - axis_start(*topology)],
                *mesh,
                *source,
                topology.issues@,
            ) by {
                assert(problems@[i] == second[i]);
            }
        }
        assert(constraint_part(problems@, *mesh, *source, *topology, movement_start(*source, *topology))) by {
            assert forall|i: int| constraint_start(*topology) <= i < movement_start(*source, *topology) implies constraint_problem(
                #[trigger] problems@[i],
                source.largest_constraint_failures@[i - constraint_start(*topology)],
                *mesh,
                *source,
                topology.issues@,
            ) by {
                assert(problems@[i] == third[i]);
            }
        }
        assert(movement_part(problems@, *mesh, *source, *topology, silent_start(*source, *topology))) by {
            assert forall|i: int| movement_start(*source, *topology) <= i < silent_start(*source, *topology) implies ({
                let failure = source.movement_failures@[i - movement_start(*source, *topology)];
                movement_problem(#[trigger] problems@[i], failure.node_id, Some(failure.movement), Some(failure.budget), *mesh, *source)
            }) by {
                assert(problems@[i] == fourth[i]);
            }
        }
        assert(silent_part(problems@, *mesh, *source, *topology, axis_failure_start(*source, *topology))) by {
            assert forall|i: int| silent_start(*source, *topology) <= i < axis_failure_start(*source, *topology) implies movement_problem(
                #[trigger] problems@[i],
                silent(*source)[i - silent_start(*source, *topology)],
                None,
                None,
                *mesh,
                *source,
            ) by {
                assert(problems@[i] == fourth[i]);
            }
        }
        assert(axis_failure_part(problems@, *mesh, *source, *topology, global_start(*source, *topology))) by {
            assert forall|i: int| axis_failure_start(*source, *topology) <= i < global_start(*source, *topology) implies axis_failure_problem(
                #[trigger] problems@[i],
                source.axis_failures@[i - axis_failure_start(*source, *topology)],
                *mesh,
                *source,
                topology.issues@,
            ) by {
                assert(problems@[i] == fifth[i]);
            }
        }
    }
    problems
}

/// The local scales of problems from what was measured around them.
fn scale_problems(problems: &mut Vec<Problem>, measures: &Vec<ScaleMeasure>)
    requires
        measures@.len() == old(problems)@.len(),
    ensures
        final(problems)@.len() == old(problems)@.len(),
        scaled(final(problems)@, measures@),
        forall|i: int|
            0 <= i < old(problems)@.len() ==> #[trigger] final(problems)@[i] == (Problem {
                evidence: Evidence {
                    local_scale: final(problems)@[i].evidence.local_scale,
                    ..old(problems)@[i].evidence
                },
                ..old(problems)@[i]
            }),
{
    let ghost start = problems@;
    let mut i: usize = 0;
    while i < problems.len()
        invariant
            i <= problems.len(),
            problems@.len() == start.len(),
            measures@.len() == start.len(),
            forall|j: int|
                0 <= j < i ==> #[trigger] problems@[j] == (Problem {
                    evidence: Evidence { local_scale: problems@[j].evidence.local_scale, ..start[j].evidence },
                    ..start[j]
                }),
            forall|j: int|
                0 <= j < i ==> local_scale_of(
                    (#[trigger] problems@[j]).evidence.local_scale,
                    measures@[j].sides@,
                    measures@[j].distances@,
                ),
            forall|j: int| i <= j < start.len() ==> #[trigger] problems@[j] == start[j],
        decreases problems.len() - i,
    {
        let mut problem = problems.remove(i);
        problem.evidence.local_scale = local_scale(&measures[i].sides, &measures[i].distances);
        problems.insert(i, problem);
        i += 1;
    }
}

/// Collects the problems of an assembly and of the frame it was made from. `measures`
/// gives what was measured around each problem that has a place.
pub fn collect_problems(
    mesh: &MeshData,
    source: &frame::Report,
    topology: &assembly::Report,
    areas: &Vec<Option<Scalar>>,
    measures: &Vec<ScaleMeasure>,
    policy: &Policy,
) -> (problems: Vec<Problem>)
    requires
        areas@.len() == topology.issues@.len(),
        measures@.len() == global_start(*source, *topology),
    ensures
        problems_of(problems@, *mesh, *source, *topology, areas@, measures@, *policy),
{
    let mut problems = locate_problems(mesh, source, topology, areas, policy);
    scale_problems(&mut problems, measures);
    let ghost placed = problems@;
    if source.violating_equations > source.largest_constraint_failures.len() {
        let problem = global_entry(
            problems.len(),
            ProblemKind::ContinuousConstraintResidual,
            source.candidate_max_residual,
        );
        problems.push(problem);
    } else if !source.accepted && problems.len() == topology.issues.len() + topology.axis_assembly.issues.len() {
        let problem = global_entry(
            problems.len(),
            ProblemKind::ContinuousSolveFailure,
            source.candidate_max_residual,
        );
        problems.push(problem);
    }
    assert forall|i: int| 0 <= i < placed.len() implies problems@[i] == #[trigger] placed[i] by {
    }
    problems
}

/// Where the frame has a node: its first place counts.
pub open spec fn first_place(ids: Seq<u32>, node: u32, i: int) -> bool {
    &&& 0 <= i < ids.len()
    &&& ids[i] == node
    &&& forall|j: int| 0 <= j < i ==> ids[j] != node
}

/// The candidate position of a node of the frame.
pub fn frame_point(source: &frame::Report, node: u32) -> (r: Option<Point>)
    ensures
        match r {
            Some(point) => exists|i: int| #[trigger]
                first_place(source.node_ids@, node, i) && i < source.candidate_points@.len()
                    && source.candidate_points@[i] == point,
            None => forall|i: int| #[trigger]
                first_place(source.node_ids@, node, i) ==> i >= source.candidate_points@.len(),
        },
{
    let mut i: usize = 0;
    while i < source.node_ids.len()
        invariant
            i <= source.node_ids.len(),
            forall|j: int| 0 <= j < i ==> source.node_ids@[j] != node,
        decreases source.node_ids.len() - i,
    {
        if source.node_ids[i] == node {
            assert(first_place(source.node_ids@, node, i as int));
            if i < source.candidate_points.len() {
                return Some(source.candidate_points[i]);
            }
            assert forall|k: int| #[trigger] first_place(source.node_ids@, node, k) implies k >= source.candidate_points@.len() by {
                if k < i {
                    assert(source.node_ids@[k] == node);
                }
            }
            return None;
        }
        i += 1;
    }
    assert forall|k: int| #[trigger] first_place(source.node_ids@, node, k) implies k >= source.candidate_points@.len() by {
        assert(source.node_ids@[k] == node);
    }
    None
}

/// The area of a hole over the square of its extent. It is known of three
/// points or more whose extent exceeds the precision.
pub fn hole_area(points: usize, extent: &Scalar, ratio: Scalar, policy: &Policy) -> (r: Option<Scalar>)
    ensures
        r == if points >= 3 && policy.precision.lt(*extent) {
            Some(ratio)
        } else {
            None
        },
{
    if points >= 3 && policy.precision.less(extent) {
        Some(ratio)
    } else {
        None
    }
}

/// The element is one of those asked for, or none is, and has one of the nodes.
pub open spec fn scale_element(element: ElementData, nodes: Seq<u32>, wanted: Seq<u32>) -> bool {
    &&& wanted.len() == 0 || wanted.contains(element.id)
    &&& exists|k: int| 0 <= k < element.nodes@.len() && nodes.contains(#[trigger] element.nodes@[k])
}

/// The sides of an element between placed nodes that follow one another.
pub open spec fn placed_sides(mesh: MeshData, nodes: Seq<u32>, upto: int) -> Seq<(u32, u32)>
    decreases upto,
{
    if upto <= 0 {
        Seq::empty()
    } else {
        let rest = placed_sides(mesh, nodes, upto - 1);
        if upto < nodes.len() && mesh.nodes@.dom().contains(nodes[upto - 1])
            && mesh.nodes@.dom().contains(nodes[upto]) {
            rest.push((nodes[upto - 1], nodes[upto]))
        } else {
            rest
        }
    }
}

pub open spec fn sides_for_scale(mesh: MeshData, nodes: Seq<u32>, wanted: Seq<u32>, upto: int) -> Seq<(u32, u32)>
    decreases upto,
{
    if upto <= 0 {
        Seq::empty()
    } else {
        let rest = sides_for_scale(mesh, nodes, wanted, upto - 1);
        let element = mesh.elements@[upto - 1];
        if scale_element(element, nodes, wanted) {
            rest + placed_sides(mesh, element.nodes@, element.nodes@.len() as int)
        } else {
            rest
        }
    }
}

fn counts_for_scale(element: &ElementData, nodes: &Vec<u32>, wanted: &Vec<u32>) -> (r: bool)
    ensures
        r == scale_element(*element, nodes@, wanted@),
{
    if wanted.len() > 0 && !lists_id(wanted, element.id) {
        return false;
    }
    let mut k: usize = 0;
    while k < element.nodes.len()
        invariant
            k <= element.nodes.len(),
            wanted@.len() == 0 || wanted@.contains(element.id),
            forall|m: int| 0 <= m < k ==> !nodes@.contains(#[trigger] element.nodes@[m]),
        decreases element.nodes.len() - k,
    {
        if lists_id(nodes, element.nodes[k]) {
            assert(nodes@.contains(element.nodes@[k as int]));
            return true;
        }
        k += 1;
    }
    false
}

/// The sides whose lengths give a problem its local scale.
#[verifier::loop_isolation(false)]
pub fn scale_sides(mesh: &MeshData, nodes: &Vec<u32>, wanted: &Vec<u32>) -> (r: Vec<(u32, u32)>)
    ensures
        r@ == sides_for_scale(*mesh, nodes@, wanted@, mesh.elements@.len() as int),
{
    let mut r: Vec<(u32, u32)> = Vec::new();
    let mut e: usize = 0;
    while e < mesh.elements.len()
        invariant
            e <= mesh.elements.len(),
            r@ == sides_for_scale(*mesh, nodes@, wanted@, e as int),
        decreases mesh.elements.len() - e,
    {
        if counts_for_scale(&mesh.elements[e], nodes, wanted) {
            let ghost start = r@;
            let ghost list = mesh.elements@[e as int].nodes@;
            assert(start + Seq::<(u32, u32)>::empty() =~= start);
            let mut k: usize = 0;
            while k < mesh.elements[e].nodes.len()
                invariant
                    e < mesh.elements.len(),
                    k <= list.len(),
                    r@ == start + placed_sides(*mesh, list, k as int),
                decreases list.len() - k,
            {
                if k + 1 < mesh.elements[e].nodes.len() {
                    let a: u32 = mesh.elements[e].nodes[k];
                    let b: u32 = mesh.elements[e].nodes[k + 1];
                    if mesh.nodes.contains_key(a) && mesh.nodes.contains_key(b) {
                        r.push((a, b));
                        assert(r@ =~= start + placed_sides(*mesh, list, k as int).push((a, b)));
                    }
                }
                k += 1;
            }
        }
        e += 1;
    }
    r
}

pub open spec fn usable(length: Scalar) -> bool {
    length.finite() && Scalar::spec_zero().lt(length)
}

pub open spec fn usable_lengths(lengths: Seq<Scalar>, upto: int) -> Seq<Scalar>
    decreases upto,
{
    if upto <= 0 {
        Seq::empty()
    } else if usable(lengths[upto - 1]) {
        usable_lengths(lengths, upto - 1).push(lengths[upto - 1])
    } else {
        usable_lengths(lengths, upto - 1)
    }
}

pub open spec fn length_keys(keys: Seq<i128>, lengths: Seq<Scalar>) -> bool {
    &&& keys.len() == lengths.len()
    &&& forall|k: int| 0 <= k < lengths.len() ==> #[trigger] keys[k] == lengths[k].total_rank()
}

/// The upper median of the lengths.
pub open spec fn upper_median(value: Scalar, lengths: Seq<Scalar>) -> bool {
    exists|keys: Seq<i128>, order: Seq<usize>|
        length_keys(keys, lengths) && #[trigger] stable_order(keys, order) && lengths.len() > 0 && value
            == lengths[order[lengths.len() as int / 2] as int]
}

pub open spec fn longest(value: Scalar, lengths: Seq<Scalar>) -> bool {
    &&& lengths.contains(value)
    &&& forall|k: int| 0 <= k < lengths.len() ==> (#[trigger] lengths[k]).total_rank() <= value.total_rank()
}

/// The scale of a problem: the upper median of the usable side lengths, else the
/// greatest usable distance between its nodes, else one.
pub open spec fn local_scale_of(scale: Scalar, sides: Seq<Scalar>, distances: Seq<Scalar>) -> bool {
    let lengths = usable_lengths(sides, sides.len() as int);
    let spans = usable_lengths(distances, distances.len() as int);
    if lengths.len() > 0 {
        upper_median(scale, lengths)
    } else if spans.len() > 0 {
        longest(scale, spans)
    } else {
        scale == Scalar::spec_one()
    }
}

fn keep_usable(lengths: &Vec<Scalar>) -> (r: Vec<Scalar>)
    ensures
        r@ == usable_lengths(lengths@, lengths@.len() as int),
{
    let mut r: Vec<Scalar> = Vec::new();
    let mut k: usize = 0;
    while k < lengths.len()
        invariant
            k <= lengths.len(),
            r@ == usable_lengths(lengths@, k as int),
        decreases lengths.len() - k,
    {
        if lengths[k].is_finite() && Scalar::zero().less(&lengths[k]) {
            r.push(lengths[k]);
        }
        k += 1;
    }
    r
}

/// Chooses the local scale of a problem from the lengths of its sides and the
/// distances between its nodes.
#[verifier::loop_isolation(false)]
pub fn local_scale(sides: &Vec<Scalar>, distances: &Vec<Scalar>) -> (scale: Scalar)
    ensures
        local_scale_of(scale, sides@, distances@),
{
    let lengths = keep_usable(sides);
    if lengths.len() > 0 {
        let mut keys: Vec<i128> = Vec::new();
        let mut k: usize = 0;
        while k < lengths.len()
            invariant
                k <= lengths.len(),
                keys.len() == k,
                forall|m: int| 0 <= m < k ==> #[trigger] keys@[m] == lengths@[m].total_rank(),
            decreases lengths.len() - k,
        {
            keys.push(lengths[k].total_key() as i128);
            k += 1;
        }
        let order = sorted_indices(&keys);
        assert(length_keys(keys@, lengths@) && stable_order(keys@, order@));
        return lengths[order[lengths.len() / 2]];
    }
    let spans = keep_usable(distances);
    if spans.len() > 0 {
        let mut best: usize = 0;
        let mut k: usize = 1;
        while k < spans.len()
            invariant
                best < spans.len(),
                1 <= k <= spans.len(),
                forall|m: int| 0 <= m < k ==> (#[trigger] spans@[m]).total_rank() <= spans@[best as int].total_rank(),
            decreases spans.len() - k,
        {
            if spans[best].total_key() <= spans[k].total_key() {
                best = k;
            }
            k += 1;
        }
        assert(spans@.contains(spans@[best as int]));
        return spans[best];
    }
    Scalar::one()
}

/// The bars at a node are counted.
pub proof fn bars_at_a_node_are_counted(elements: Seq<ElementData>, node: u32, upto: int)
    requires
        0 <= upto <= elements.len(),
    ensures
        bars_at(elements, node, upto) == elements.take(upto).filter(
            |element: ElementData| element.bar() && element.nodes@.contains(node),
        ).len(),
    decreases upto,
{
    reveal(Seq::filter);
    if upto > 0 {
        bars_at_a_node_are_counted(elements, node, upto - 1);
        assert(elements.take(upto).drop_last() =~= elements.take(upto - 1));
    }
}

/// The axes at a node are counted.
pub proof fn axes_at_a_node_are_counted(axes: Seq<frame::Axis>, ids: Seq<u32>, node: u32, upto: int)
    requires
        0 <= upto <= axes.len(),
    ensures
        axes_at(axes, ids, node, upto) == axes.take(upto).filter(|axis: frame::Axis| axis_has_node(axis, ids, node)).len(),
    decreases upto,
{
    reveal(Seq::filter);
    if upto > 0 {
        axes_at_a_node_are_counted(axes, ids, node, upto - 1);
        assert(axes.take(upto).drop_last() =~= axes.take(upto - 1));
    }
}

/// The degree of some nodes is the greatest number of bars at one of them.
pub proof fn degrees_are_greatest(mesh: MeshData, nodes: Seq<u32>, upto: int)
    requires
        0 <= upto <= nodes.len(),
    ensures
        upto == 0 <==> most_bars(mesh, nodes, upto) is None,
        forall|k: int|
            0 <= k < upto ==> bar_count(mesh, #[trigger] nodes[k]) as usize <= most_bars(mesh, nodes, upto)->0,
        upto > 0 ==> exists|k: int|
            0 <= k < upto && bar_count(mesh, #[trigger] nodes[k]) as usize == most_bars(mesh, nodes, upto)->0,
    decreases upto,
{
    if upto > 0 {
        degrees_are_greatest(mesh, nodes, upto - 1);
        let before = most_bars(mesh, nodes, upto - 1);
        let here = bar_count(mesh, nodes[upto - 1]) as usize;
        if before is Some && before->0 >= here {
            let k = choose|k: int| 0 <= k < upto - 1 && bar_count(mesh, #[trigger] nodes[k]) as usize == before->0;
            assert(bar_count(mesh, nodes[k]) as usize == most_bars(mesh, nodes, upto)->0);
        } else {
            assert(bar_count(mesh, nodes[upto - 1]) as usize == most_bars(mesh, nodes, upto)->0);
        }
    }
}

/// The same of axes.
pub proof fn axis_counts_are_greatest(source: frame::Report, nodes: Seq<u32>, upto: int)
    requires
        0 <= upto <= nodes.len(),
    ensures
        upto == 0 <==> most_axes(source, nodes, upto) is None,
        forall|k: int|
            0 <= k < upto ==> axis_count(source, #[trigger] nodes[k]) as usize <= most_axes(source, nodes, upto)->0,
        upto > 0 ==> exists|k: int|
            0 <= k < upto && axis_count(source, #[trigger] nodes[k]) as usize == most_axes(source, nodes, upto)->0,
    decreases upto,
{
    if upto > 0 {
        axis_counts_are_greatest(source, nodes, upto - 1);
        let before = most_axes(source, nodes, upto - 1);
        let here = axis_count(source, nodes[upto - 1]) as usize;
        if before is Some && before->0 >= here {
            let k = choose|k: int| 0 <= k < upto - 1 && axis_count(source, #[trigger] nodes[k]) as usize == before->0;
            assert(axis_count(source, nodes[k]) as usize == most_axes(source, nodes, upto)->0);
        } else {
            assert(axis_count(source, nodes[upto - 1]) as usize == most_axes(source, nodes, upto)->0);
        }
    }
}

/// The reason that assembly gives settles what a problem is.
pub proof fn reasons_settle_the_problem(reason: Seq<char>, area: Option<Scalar>, policy: Policy)
    ensures
        axis_kind("shared_anchors_not_collinear"@) == ProblemKind::NonCollinearSharedAnchor,
        axis_kind("unavailable_shared_anchor"@) == ProblemKind::UnavailableSharedAnchor,
        reason != "shared_anchors_not_collinear"@ && reason != "unavailable_shared_anchor"@ ==> axis_kind(reason)
            == ProblemKind::OtherAxisAssembly,
        surface_kind("degenerate_hole_after_closure"@, None, policy) == ProblemKind::DegenerateHole,
        surface_kind(reason, area, policy) == ProblemKind::DegenerateHole <==> reason == "degenerate_hole_after_closure"@ && (area is None
            || (area->0.finite() && area->0.le(policy.hole_degeneracy_ratio))),
        begins_with(reason, "contour_"@) ==> surface_kind(reason, area, policy) == ProblemKind::InvalidSurfaceContour,
        !begins_with(reason, "contour_"@) && reason != "degenerate_hole_after_closure"@ ==> surface_kind(reason, area, policy)
            == ProblemKind::OtherSurfaceTopology,
{
    reveal_strlit("shared_anchors_not_collinear");
    reveal_strlit("unavailable_shared_anchor");
    reveal_strlit("degenerate_hole_after_closure");
    reveal_strlit("contour_");
    assert("shared_anchors_not_collinear"@[0] == 's' && "unavailable_shared_anchor"@[0] == 'u');
    assert("degenerate_hole_after_closure"@[0] == 'd' && "contour_"@[0] == 'c');
    if begins_with("degenerate_hole_after_closure"@, "contour_"@) {
        assert("degenerate_hole_after_closure"@.take("contour_"@.len() as int)[0] == "contour_"@[0]);
    }
}

/// Every issue of surfaces and axes, every listed failure of the solve and every node over its
/// budget leaves one problem, and the numbers of problems are their places.
pub proof fn every_failure_is_a_problem(
    problems: Seq<Problem>,
    mesh: MeshData,
    source: frame::Report,
    topology: assembly::Report,
    areas: Seq<Option<Scalar>>,
    measures: Seq<ScaleMeasure>,
    policy: Policy,
    i: int,
)
    requires
        problems_of(problems, mesh, source, topology, areas, measures, policy),
        0 <= i < problems.len(),
    ensures
        problems[i].id == i,
        ({
            let a = topology.issues@.len() as int;
            let b = a + topology.axis_assembly.issues@.len();
            let c = b + source.largest_constraint_failures@.len();
            let d = c + source.movement_failures@.len();
            let e = d + silent(source).len();
            let f = e + source.axis_failures@.len();
            &&& f <= problems.len() <= f + 1
            &&& i < a ==> problems[i].patch == Some(topology.issues@[i].patch) && problems[i].axis is None
            &&& a <= i < b ==> problems[i].axis == Some(topology.axis_assembly.issues@[i - a].source_axis) && problems[i].patch is None
            &&& b <= i < c ==> problems[i].kind == ProblemKind::ContinuousConstraintResidual && problems[i].evidence.residual == Some(
                source.largest_constraint_failures@[i - b].residual.spec_abs(),
            )
            &&& c <= i < d ==> problems[i].kind == ProblemKind::ContinuousMovementBudget && problems[i].source_nodes@
                == seq![source.movement_failures@[i - c].node_id] && problems[i].evidence.movement == Some(
                source.movement_failures@[i - c].movement,
            ) && problems[i].evidence.movement_budget == Some(source.movement_failures@[i - c].budget)
            &&& d <= i < e ==> problems[i].kind == ProblemKind::ContinuousMovementBudget && problems[i].source_nodes@
                == seq![silent(source)[i - d]] && problems[i].evidence.movement is None
            &&& e <= i < f ==> problems[i].kind == ProblemKind::ContinuousAxisFailure && problems[i].axis == Some(
                source.axis_failures@[i - e].axis,
            ) && problems[i].evidence.original_length == Some(source.axis_failures@[i - e].original_length)
                && problems[i].evidence.candidate_length == Some(source.axis_failures@[i - e].candidate_length)
            &&& i == f ==> problems[i].source_nodes@.len() == 0 && problems[i].evidence.residual == Some(
                source.candidate_max_residual,
            )
        }),
{
    let f = global_start(source, topology);
    if i < axis_start(topology) {
        assert(surface_problem(problems[i], topology.issues@[i], areas[i], topology.issues@, policy));
    } else if i < constraint_start(topology) {
        assert(axis_problem(
            problems[i],
            topology.axis_assembly.issues@[i - axis_start(topology)],
            mesh,
            source,
            topology.issues@,
        ));
    } else if i < movement_start(source, topology) {
        assert(constraint_problem(
            problems[i],
            source.largest_constraint_failures@[i - constraint_start(topology)],
            mesh,
            source,
            topology.issues@,
        ));
    } else if i < silent_start(source, topology) {
        let failure = source.movement_failures@[i - movement_start(source, topology)];
        assert(movement_problem(problems[i], failure.node_id, Some(failure.movement), Some(failure.budget), mesh, source));
    } else if i < axis_failure_start(source, topology) {
        assert(movement_problem(problems[i], silent(source)[i - silent_start(source, topology)], None, None, mesh, source));
    } else if i < f {
        assert(axis_failure_problem(
            problems[i],
            source.axis_failures@[i - axis_failure_start(source, topology)],
            mesh,
            source,
            topology.issues@,
        ));
    }
}

/// A joint is structural where the bars at one of its nodes are not two, or where more than one
/// axis meets there.
pub proof fn structural_joints_are_no_continuations(
    problem: Problem,
    issue: bars::Issue,
    mesh: MeshData,
    source: frame::Report,
    issues: Seq<assembly::Issue>,
)
    requires
        axis_problem(problem, issue, mesh, source, issues),
        problem.source_nodes@.len() > 0,
    ensures
        problem.evidence.structural_joint <==> most_bars(mesh, problem.source_nodes@, problem.source_nodes@.len() as int) != Some(
            2usize,
        ) || most_axes(source, problem.source_nodes@, problem.source_nodes@.len() as int)->0 >= 2,
        problem.kind == axis_kind(issue.reason@),
{
    degrees_are_greatest(mesh, problem.source_nodes@, problem.source_nodes@.len() as int);
    axis_counts_are_greatest(source, problem.source_nodes@, problem.source_nodes@.len() as int);
}

/// A node over its budget is silent exactly when no movement failure reports it.
pub proof fn silent_nodes_are_not_reported(over: Seq<u32>, failures: Seq<frame::MovementFailure>, upto: int, node: u32)
    requires
        0 <= upto <= over.len(),
    ensures
        silent_nodes(over, failures, upto).contains(node) <==> over.take(upto).contains(node) && forall|k: int|
            0 <= k < failures.len() ==> (#[trigger] failures[k]).node_id != node,
    decreases upto,
{
    if upto > 0 {
        silent_nodes_are_not_reported(over, failures, upto - 1, node);
        assert(over.take(upto) =~= over.take(upto - 1).push(over[upto - 1]));
        crate::ordering::pushed_contains(over.take(upto - 1), over[upto - 1], node);
        crate::ordering::pushed_contains(silent_nodes(over, failures, upto - 1), over[upto - 1], node);
    }
}

proof fn usable_are_kept(lengths: Seq<Scalar>, upto: int, value: Scalar)
    requires
        0 <= upto <= lengths.len(),
    ensures
        usable_lengths(lengths, upto).contains(value) <==> lengths.take(upto).contains(value) && value.finite()
            && Scalar::spec_zero().lt(value),
    decreases upto,
{
    if upto > 0 {
        usable_are_kept(lengths, upto - 1, value);
        assert(lengths.take(upto) =~= lengths.take(upto - 1).push(lengths[upto - 1]));
        crate::ordering::pushed_contains(lengths.take(upto - 1), lengths[upto - 1], value);
        crate::ordering::pushed_contains(usable_lengths(lengths, upto - 1), lengths[upto - 1], value);
    }
}

/// A local scale is finite and above zero. It is one of the sides where any can be used, else
/// the greatest distance that can, else one.
pub proof fn local_scales_are_measured(scale: Scalar, sides: Seq<Scalar>, distances: Seq<Scalar>)
    requires
        local_scale_of(scale, sides, distances),
    ensures
        scale.finite() && Scalar::spec_zero().lt(scale),
        (exists|k: int| 0 <= k < sides.len() && (#[trigger] sides[k]).finite() && Scalar::spec_zero().lt(sides[k])) ==> sides.contains(
            scale,
        ),
        !(exists|k: int| 0 <= k < sides.len() && (#[trigger] sides[k]).finite() && Scalar::spec_zero().lt(sides[k])) ==> forall|
            k: int,
        |
            0 <= k < distances.len() && (#[trigger] distances[k]).finite() && Scalar::spec_zero().lt(distances[k])
                ==> distances[k].total_rank() <= scale.total_rank(),
{
    let lengths = usable_lengths(sides, sides.len() as int);
    let spans = usable_lengths(distances, distances.len() as int);
    usable_are_kept(sides, sides.len() as int, scale);
    usable_are_kept(distances, distances.len() as int, scale);
    assert(sides.take(sides.len() as int) =~= sides);
    assert(distances.take(distances.len() as int) =~= distances);
    if lengths.len() > 0 {
        let (keys, order) = choose|keys: Seq<i128>, order: Seq<usize>|
            length_keys(keys, lengths) && #[trigger] stable_order(keys, order) && lengths.len() > 0 && scale
                == lengths[order[lengths.len() as int / 2] as int];
        assert(order[lengths.len() as int / 2] < keys.len());
        assert(lengths.contains(scale));
        usable_are_kept(sides, sides.len() as int, lengths[0]);
        assert(lengths.contains(lengths[0]));
        let k = choose|k: int| 0 <= k < sides.len() && sides[k] == lengths[0];
        assert(sides[k].finite());
    } else {
        assert forall|k: int| 0 <= k < sides.len() implies !((#[trigger] sides[k]).finite() && Scalar::spec_zero().lt(sides[k])) by {
            usable_are_kept(sides, sides.len() as int, sides[k]);
            assert(sides.contains(sides[k]));
        }
        assert forall|k: int|
            0 <= k < distances.len() && (#[trigger] distances[k]).finite() && Scalar::spec_zero().lt(distances[k]) implies distances[k].total_rank()
            <= scale.total_rank() by {
            usable_are_kept(distances, distances.len() as int, distances[k]);
            assert(distances.contains(distances[k]));
            let m = choose|m: int| 0 <= m < spans.len() && spans[m] == distances[k];
            assert(spans[m].total_rank() <= scale.total_rank());
        }
    }
}

/// Half of the lengths or more do not exceed their upper median, and half or fewer come before
/// it.
pub proof fn upper_medians_lie_in_the_middle(value: Scalar, lengths: Seq<Scalar>)
    requires
        upper_median(value, lengths),
        lengths.len() <= usize::MAX,
    ensures
        exists|order: Seq<usize>|
            #![trigger order.no_duplicates()]
            order.len() == lengths.len() && order.no_duplicates() && (forall|i: int|
                0 <= i < order.len() ==> (#[trigger] order[i]) < lengths.len()) && (forall|i: int|
                0 <= i <= lengths.len() as int / 2 ==> lengths[#[trigger] order[i] as int].total_rank() <= value.total_rank()) && (forall|
                i: int,
            |
                lengths.len() as int / 2 <= i < lengths.len() ==> value.total_rank() <= lengths[#[trigger] order[i] as int].total_rank()),
{
    let (keys, order) = choose|keys: Seq<i128>, order: Seq<usize>|
        length_keys(keys, lengths) && #[trigger] stable_order(keys, order) && lengths.len() > 0 && value
            == lengths[order[lengths.len() as int / 2] as int];
    crate::ordering::sorting_only_moves(keys, order);
    let h = lengths.len() as int / 2;
    assert forall|i: int| 0 <= i < lengths.len() implies keys[#[trigger] order[i] as int] == lengths[order[i] as int].total_rank() by {}
    assert(keys[order[h] as int] == value.total_rank());
    assert forall|i: int| 0 <= i <= h implies lengths[#[trigger] order[i] as int].total_rank() <= value.total_rank() by {
        assert(keys[order[i] as int] == lengths[order[i] as int].total_rank());
        if i < h {
            assert(keys[order[i] as int] <= keys[order[h] as int]);
        }
    }
    assert forall|i: int| h <= i < lengths.len() implies value.total_rank() <= lengths[#[trigger] order[i] as int].total_rank() by {
        assert(keys[order[i] as int] == lengths[order[i] as int].total_rank());
        if h < i {
            assert(keys[order[h] as int] <= keys[order[i] as int]);
        }
    }
    assert(order.no_duplicates());
}

/// The sides that count for a scale are the links of the elements that count.
pub proof fn scale_sides_are_links_of_elements(mesh: MeshData, nodes: Seq<u32>, wanted: Seq<u32>, upto: int, e: int, k: int)
    requires
        0 <= e < upto <= mesh.elements@.len(),
        wanted.len() == 0 || wanted.contains(mesh.elements@[e].id),
        exists|m: int| 0 <= m < mesh.elements@[e].nodes@.len() && nodes.contains(#[trigger] mesh.elements@[e].nodes@[m]),
        0 <= k < mesh.elements@[e].nodes@.len() - 1,
        mesh.nodes@.dom().contains(mesh.elements@[e].nodes@[k]),
        mesh.nodes@.dom().contains(mesh.elements@[e].nodes@[k + 1]),
    ensures
        sides_for_scale(mesh, nodes, wanted, upto).contains((mesh.elements@[e].nodes@[k], mesh.elements@[e].nodes@[k + 1])),
    decreases upto,
{
    let side = (mesh.elements@[e].nodes@[k], mesh.elements@[e].nodes@[k + 1]);
    let rest = sides_for_scale(mesh, nodes, wanted, upto - 1);
    let all = sides_for_scale(mesh, nodes, wanted, upto);
    if e < upto - 1 {
        scale_sides_are_links_of_elements(mesh, nodes, wanted, upto - 1, e, k);
        let m = choose|m: int| 0 <= m < rest.len() && rest[m] == side;
        assert(all[m] == side);
    } else {
        let own = mesh.elements@[e].nodes@;
        side_is_placed(mesh, own, own.len() as int, k);
        let sides = placed_sides(mesh, own, own.len() as int);
        let m = choose|m: int| 0 <= m < sides.len() && sides[m] == side;
        assert(scale_element(mesh.elements@[e], nodes, wanted));
        assert(all[rest.len() + m] == side);
    }
}

proof fn side_is_placed(mesh: MeshData, nodes: Seq<u32>, upto: int, k: int)
    requires
        0 <= k < upto <= nodes.len(),
        k < nodes.len() - 1,
        mesh.nodes@.dom().contains(nodes[k]),
        mesh.nodes@.dom().contains(nodes[k + 1]),
    ensures
        placed_sides(mesh, nodes, upto).contains((nodes[k], nodes[k + 1])),
    decreases upto,
{
    let rest = placed_sides(mesh, nodes, upto - 1);
    if k < upto - 1 {
        side_is_placed(mesh, nodes, upto - 1, k);
        if upto < nodes.len() {
            crate::ordering::pushed_contains(rest, (nodes[upto - 1], nodes[upto]), (nodes[k], nodes[k + 1]));
        }
    } else {
        crate::ordering::pushed_contains(rest, (nodes[k], nodes[k + 1]), (nodes[k], nodes[k + 1]));
    }
}

} // verus!
