//! Problems of an assembly, and what is planned about them.
use topo_reconstruct::input::{ElementData, MeshData};
use topo_reconstruct::reconstruction::reconcile::problems::{hole_area, incident_bar_count, local_scale, scale_sides};
use topo_reconstruct::reconstruction::reconcile::{
    choose_hypothesis, decision_status, hypotheses, make_components, operation_rank, DecisionStatus, Evidence,
    OperationKind, Policy, Problem, ProblemKind, Transaction,
};
use topo_reconstruct::scalar::Scalar;

fn scalar(value: f64) -> Scalar {
    Scalar { bits: value.to_bits() }
}

fn number(value: Scalar) -> f64 {
    f64::from_bits(value.bits)
}

fn scalars(values: &[f64]) -> Vec<Scalar> {
    values.iter().map(|v| scalar(*v)).collect()
}

fn problem(kind: ProblemKind, structural_joint: bool, depends: bool) -> Problem {
    Problem {
        id: 0,
        component: 0,
        kind,
        patch: None,
        axis: None,
        source_elements: vec![10],
        source_nodes: vec![20],
        evidence: Evidence {
            local_scale: scalar(1.0),
            residual: None,
            movement: None,
            movement_budget: None,
            original_length: None,
            candidate_length: None,
            normalized_hole_area: Some(scalar(1e-5)),
            boundary_count: Some(2),
            direct_bar_degree: Some(if structural_joint { 4 } else { 2 }),
            direct_axis_count: Some(if structural_joint { 3 } else { 1 }),
            structural_joint,
            depends_on_unbuilt_surface: depends,
        },
    }
}

#[test]
fn structural_joint_prefers_split_over_forced_collinearity() {
    let selected = choose_hypothesis(&hypotheses(&problem(ProblemKind::NonCollinearSharedAnchor, true, false)));
    assert_eq!(selected.operation, OperationKind::SplitAxisAtStructuralJoint);
    assert!(selected.feasible);
}

#[test]
fn degenerate_hole_is_preserved_not_filled() {
    let candidates = hypotheses(&problem(ProblemKind::DegenerateHole, false, false));
    let selected = choose_hypothesis(&candidates);
    assert_eq!(selected.operation, OperationKind::PreserveHole);
    assert!(candidates
        .iter()
        .any(|candidate| candidate.operation == OperationKind::CloseHole && !candidate.feasible));
}

#[test]
fn unavailable_anchor_waits_for_its_surface_dependency() {
    let selected = choose_hypothesis(&hypotheses(&problem(ProblemKind::UnavailableSharedAnchor, false, true)));
    assert_eq!(selected.operation, OperationKind::DeferUntilSurfaceResolved);
}

#[test]
fn finite_continuous_residual_plans_a_retry_without_relaxing_tolerance() {
    let mut problem = problem(ProblemKind::ContinuousConstraintResidual, false, false);
    problem.evidence.residual = Some(scalar(1e-7));
    let selected = choose_hypothesis(&hypotheses(&problem));
    assert_eq!(selected.operation, OperationKind::RetryContinuousSolve);
    assert!(selected.feasible);
}

#[test]
fn transaction_commit_and_rollback_are_explicit() {
    let mut transaction = Transaction::new(vec![1_u32]);
    transaction.working_mut().push(2);
    transaction.rollback();
    assert_eq!(transaction.working(), &vec![1]);
    transaction.working_mut().push(3);
    assert_eq!(transaction.commit(), vec![1, 3]);
}

#[test]
fn what_nothing_settles_stays_unresolved() {
    for kind in [ProblemKind::InvalidSurfaceContour, ProblemKind::OtherSurfaceTopology, ProblemKind::OtherAxisAssembly] {
        let selected = choose_hypothesis(&hypotheses(&problem(kind, false, false)));
        assert_eq!(selected.operation, OperationKind::LeaveUnresolved);
        assert_eq!(decision_status(selected.operation), DecisionStatus::Unresolved);
    }
    let selected = choose_hypothesis(&Vec::new());
    assert_eq!(selected.operation, OperationKind::LeaveUnresolved);
}

#[test]
fn operations_have_a_rank_and_a_status() {
    let all = [
        OperationKind::SplitAxisAtStructuralJoint,
        OperationKind::PreserveHole,
        OperationKind::CloseHole,
        OperationKind::DeferUntilSurfaceResolved,
        OperationKind::RetryContinuousSolve,
        OperationKind::LeaveUnresolved,
    ];
    let mut ranks: Vec<usize> = all.iter().map(|o| operation_rank(*o)).collect();
    ranks.sort_unstable();
    ranks.dedup();
    assert_eq!(ranks.len(), all.len());
    assert_eq!(decision_status(OperationKind::SplitAxisAtStructuralJoint), DecisionStatus::Planned);
    assert_eq!(decision_status(OperationKind::DeferUntilSurfaceResolved), DecisionStatus::Deferred);
}

#[test]
fn problems_with_a_common_node_form_one_component() {
    let mut problems: Vec<Problem> = (0..4).map(|_| problem(ProblemKind::OtherAxisAssembly, false, false)).collect();
    for (i, (elements, nodes)) in
        [(vec![1], vec![20, 21]), (vec![2], vec![30]), (vec![3], vec![21, 22]), (vec![2], vec![40])].into_iter().enumerate()
    {
        problems[i].id = i;
        problems[i].source_elements = elements;
        problems[i].source_nodes = nodes;
    }
    let components = make_components(&mut problems);
    assert_eq!(components.len(), 2);
    assert_eq!(components[0].problem_ids, vec![0, 2]);
    assert_eq!(components[0].source_nodes, vec![20, 21, 22]);
    assert_eq!(components[1].problem_ids, vec![1, 3]);
    assert_eq!(components[1].source_elements, vec![2]);
    assert_eq!(problems.iter().map(|p| p.component).collect::<Vec<_>>(), vec![0, 1, 0, 1]);
}

#[test]
fn scales_and_areas_are_measured_locally() {
    let mut mesh = MeshData::default();
    for id in 1..5 {
        mesh.nodes.insert(id, [scalar(id as f64), scalar(0.), scalar(0.)]);
    }
    mesh.elements.push(ElementData { id: 1, elem_type: 10, stiff_id: 1, nodes: vec![1, 2] });
    mesh.elements.push(ElementData { id: 2, elem_type: 44, stiff_id: 1, nodes: vec![2, 3, 4] });
    assert_eq!(incident_bar_count(&mesh, 2), 1);
    assert_eq!(incident_bar_count(&mesh, 3), 0);
    assert_eq!(scale_sides(&mesh, &vec![2], &vec![1]), vec![(1, 2)]);
    let policy = Policy::default();
    assert!(policy.is_valid());
    assert_eq!(number(policy.precision), 1e-8);
    assert_eq!(number(policy.hole_degeneracy_ratio), 1e-4);
    assert_eq!(number(policy.maximum_repair_movement), 0.15);
    assert_eq!(hole_area(4, &scalar(2.), scalar(0.25), &policy).map(number), Some(0.25));
    assert_eq!(hole_area(2, &scalar(2.), scalar(0.25), &policy).map(number), None);
    assert_eq!(hole_area(4, &scalar(1e-9), scalar(0.25), &policy).map(number), None);
    assert_eq!(number(local_scale(&scalars(&[3., 1., 2.]), &scalars(&[]))), 2.);
}
