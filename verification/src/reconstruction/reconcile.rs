//! Deterministic planning of geometry reconciliation operations.
//!
//! This layer separates a discrete topological decision from a continuous
//! coordinate solve. It does not silently edit source geometry: it builds a
//! finite set of auditable hypotheses, selects the best feasible one for each
//! problem within a connected conflict component, and leaves unsupported cases
//! unresolved.
pub mod problems;

use vstd::prelude::*;
use crate::connectivity::{components_of, linked_groups, related_in_one_group, share_label};
use crate::input::MeshData;
use crate::ordering::{append_ids, lists_distinct, unique};
use crate::reconstruction::assembly;
use crate::reconstruction::frame;
use crate::reconstruction::reconcile::problems::{collect_problems, global_start, problems_of, ScaleMeasure};
use crate::scalar::{is_positive, positive, Scalar};

verus! {

#[derive(Debug, Clone, Copy)]
pub struct Policy {
    /// Numerical comparison tolerance, not a repair budget.
    pub precision: Scalar,
    /// Area over squared length below which a hole counts as degenerate.
    pub hole_degeneracy_ratio: Scalar,
    /// Maximum movement available to an applied repair.
    pub maximum_repair_movement: Scalar,
}

#[derive(Debug, Clone, Copy, PartialEq, Eq, Structural)]
pub enum ProblemKind {
    DegenerateHole,
    NonCollinearSharedAnchor,
    UnavailableSharedAnchor,
    ContinuousConstraintResidual,
    ContinuousMovementBudget,
    ContinuousAxisFailure,
    ContinuousSolveFailure,
    InvalidSurfaceContour,
    OtherSurfaceTopology,
    OtherAxisAssembly,
}

#[derive(Debug, Clone, Copy)]
pub struct Evidence {
    pub local_scale: Scalar,
    pub residual: Option<Scalar>,
    pub movement: Option<Scalar>,
    pub movement_budget: Option<Scalar>,
    pub original_length: Option<Scalar>,
    pub candidate_length: Option<Scalar>,
    pub normalized_hole_area: Option<Scalar>,
    pub boundary_count: Option<usize>,
    pub direct_bar_degree: Option<usize>,
    pub direct_axis_count: Option<usize>,
    pub structural_joint: bool,
    pub depends_on_unbuilt_surface: bool,
}

#[derive(Debug)]
pub struct Problem {
    pub id: usize,
    pub component: usize,
    pub kind: ProblemKind,
    pub patch: Option<usize>,
    pub axis: Option<usize>,
    pub source_elements: Vec<u32>,
    pub source_nodes: Vec<u32>,
    pub evidence: Evidence,
}

pub const DEFAULT_PRECISION_BITS: u64 = 0x3e45_798e_e230_8c3a;

pub const DEFAULT_HOLE_RATIO_BITS: u64 = 0x3f1a_36e2_eb1c_432d;

pub const DEFAULT_MOVEMENT_BITS: u64 = 0x3fc3_3333_3333_3333;

impl Default for Policy {
    /// A precision of 1e-8, a hole ratio of 1e-4 and a movement of 0.15.
    fn default() -> (r: Policy)
        ensures
            r.precision.bits == DEFAULT_PRECISION_BITS,
            r.hole_degeneracy_ratio.bits == DEFAULT_HOLE_RATIO_BITS,
            r.maximum_repair_movement.bits == DEFAULT_MOVEMENT_BITS,
    {
        Policy {
            precision: Scalar { bits: DEFAULT_PRECISION_BITS },
            hole_degeneracy_ratio: Scalar { bits: DEFAULT_HOLE_RATIO_BITS },
            maximum_repair_movement: Scalar { bits: DEFAULT_MOVEMENT_BITS },
        }
    }
}

impl Policy {
    pub open spec fn valid(&self) -> bool {
        &&& positive(self.precision)
        &&& positive(self.hole_degeneracy_ratio)
        &&& positive(self.maximum_repair_movement)
    }

    pub fn is_valid(&self) -> (r: bool)
        ensures
            r == self.valid(),
    {
        is_positive(&self.precision) && is_positive(&self.hole_degeneracy_ratio) && is_positive(
            &self.maximum_repair_movement,
        )
    }
}

#[derive(Debug, Clone, Copy, PartialEq, Eq, Structural)]
pub enum OperationKind {
    SplitAxisAtStructuralJoint,
    PreserveHole,
    CloseHole,
    DeferUntilSurfaceResolved,
    RetryContinuousSolve,
    LeaveUnresolved,
}

#[derive(Debug, Clone, Copy, PartialEq, Eq, Structural)]
pub enum DecisionStatus {
    Planned,
    Deferred,
    Unresolved,
}

#[derive(Debug, Clone, Copy, PartialEq, Eq, Structural)]
pub struct Score {
    pub hard_violations: usize,
    pub semantic_loss: usize,
    pub normalized_movement: Scalar,
    pub topology_edits: usize,
    pub mesh_penalty: usize,
}

#[derive(Debug)]
pub struct Hypothesis {
    pub operation: OperationKind,
    pub feasible: bool,
    pub score: Score,
    pub rationale: String,
}

#[derive(Debug)]
pub struct Decision {
    pub problem_id: usize,
    pub component: usize,
    pub status: DecisionStatus,
    pub selected_operation: OperationKind,
    pub hypotheses: Vec<Hypothesis>,
    pub rationale: String,
}

#[derive(Debug)]
pub struct Component {
    pub id: usize,
    pub problem_ids: Vec<usize>,
    pub source_elements: Vec<u32>,
    pub source_nodes: Vec<u32>,
}

#[derive(Debug)]
pub struct Report {
    pub policy: Policy,
    pub problems: Vec<Problem>,
    pub components: Vec<Component>,
    pub decisions: Vec<Decision>,
    pub unresolved_problem_ids: Vec<usize>,
    /// A safe operation exists, but it depends on a later prerequisite such as
    /// constrained-hole meshing or a completed neighboring surface.
    pub deferred_problem_ids: Vec<usize>,
    pub geometry_changed: bool,
    pub export_ready: bool,
}

/// A small transaction primitive for geometry application.
///
/// Candidate edits are evaluated on a clone and become visible only after an
/// explicit commit. The source value is never modified in place.
#[derive(Debug, Clone)]
pub struct Transaction<T: Clone> {
    original: T,
    working: T,
}

impl<T: Clone> Transaction<T> {
    pub closed spec fn spec_original(&self) -> T {
        self.original
    }

    pub closed spec fn spec_working(&self) -> T {
        self.working
    }

    pub fn new(original: T) -> (r: Self)
        ensures
            r.spec_original() == original,
            cloned(original, r.spec_working()),
    {
        let working = original.clone();
        Transaction { original, working }
    }

    pub fn working(&self) -> (r: &T)
        ensures
            *r == self.spec_working(),
    {
        &self.working
    }

    pub fn working_mut(&mut self) -> (r: &mut T)
        ensures
            *r == old(self).spec_working(),
            final(self).spec_working() == *final(r),
            final(self).spec_original() == old(self).spec_original(),
    {
        &mut self.working
    }

    /// Takes every edit back.
    pub fn rollback(&mut self)
        ensures
            final(self).spec_original() == old(self).spec_original(),
            cloned(old(self).spec_original(), final(self).spec_working()),
    {
        self.working = self.original.clone();
    }

    /// Makes the edits visible.
    pub fn commit(self) -> (r: T)
        ensures
            r == self.spec_working(),
    {
        self.working
    }
}

pub open spec fn no_movement(
    hard_violations: usize,
    semantic_loss: usize,
    topology_edits: usize,
    mesh_penalty: usize,
) -> Score {
    Score {
        hard_violations,
        semantic_loss,
        normalized_movement: Scalar::spec_zero(),
        topology_edits,
        mesh_penalty,
    }
}

fn still(hard_violations: usize, semantic_loss: usize, topology_edits: usize, mesh_penalty: usize) -> (r:
    Score)
    ensures
        r == no_movement(hard_violations, semantic_loss, topology_edits, mesh_penalty),
{
    Score {
        hard_violations,
        semantic_loss,
        normalized_movement: Scalar::zero(),
        topology_edits,
        mesh_penalty,
    }
}

pub open spec fn states(
    hypothesis: Hypothesis,
    operation: OperationKind,
    feasible: bool,
    score: Score,
    rationale: Seq<char>,
) -> bool {
    &&& hypothesis.operation == operation
    &&& hypothesis.feasible == feasible
    &&& hypothesis.score == score
    &&& hypothesis.rationale@ == rationale
}

fn hypothesis(operation: OperationKind, feasible: bool, score: Score, rationale: &'static str) -> (r:
    Hypothesis)
    ensures
        states(r, operation, feasible, score, rationale@),
{
    Hypothesis { operation, feasible, score, rationale: rationale.to_string() }
}

pub open spec fn violation(present: bool) -> usize {
    if present {
        1
    } else {
        0
    }
}

pub open spec fn residual_finite(evidence: Evidence) -> bool {
    match evidence.residual {
        Some(residual) => residual.finite(),
        None => false,
    }
}

/// The operations that are weighed for a problem.
pub open spec fn hypotheses_for(list: Seq<Hypothesis>, problem: Problem) -> bool {
    let joint = problem.evidence.structural_joint;
    let waits = problem.evidence.depends_on_unbuilt_surface;
    match problem.kind {
        ProblemKind::DegenerateHole => {
            &&& list.len() == 2
            &&& states(
                list[0],
                OperationKind::PreserveHole,
                true,
                no_movement(0, 0, 1, 1),
                "the opening collapses under closure; preserve it and defer constrained meshing"@,
            )
            &&& states(
                list[1],
                OperationKind::CloseHole,
                false,
                no_movement(1, 1, 1, 0),
                "rejected because closure would erase or collapse a source opening"@,
            )
        },
        ProblemKind::NonCollinearSharedAnchor => {
            &&& list.len() == 2
            &&& states(
                list[0],
                OperationKind::SplitAxisAtStructuralJoint,
                joint,
                no_movement(violation(!joint), 0, 1, 0),
                if joint {
                    "incident constructions form a direct structural joint; keep one shared vertex and separate constructive segments"@
                } else {
                    "not selected because direct-joint evidence is insufficient"@
                },
            )
            &&& states(
                list[1],
                OperationKind::LeaveUnresolved,
                true,
                no_movement(0, 1, 0, 2),
                "retain the conflict explicitly if a structural split cannot be proven"@,
            )
        },
        ProblemKind::UnavailableSharedAnchor => {
            &&& list.len() == 2
            &&& states(
                list[0],
                OperationKind::DeferUntilSurfaceResolved,
                waits,
                no_movement(violation(!waits), 0, 0, 1),
                if waits {
                    "keep the bar provenance and retry after its owning surface component is resolved"@
                } else {
                    "no explicit surface dependency was found"@
                },
            )
            &&& states(
                list[1],
                OperationKind::LeaveUnresolved,
                true,
                no_movement(0, 1, 0, 2),
                "do not drop or invent the unavailable anchor"@,
            )
        },
        ProblemKind::ContinuousConstraintResidual => {
            &&& list.len() == 2
            &&& states(
                list[0],
                OperationKind::RetryContinuousSolve,
                residual_finite(problem.evidence),
                no_movement(0, 0, 0, 1),
                "the residual is finite; retry the continuous solve with its strict gate"@,
            )
            &&& states(
                list[1],
                OperationKind::LeaveUnresolved,
                true,
                no_movement(0, 1, 0, 2),
                "retain the numerical conflict if a retry cannot satisfy the tolerance"@,
            )
        },
        ProblemKind::ContinuousMovementBudget
        | ProblemKind::ContinuousAxisFailure
        | ProblemKind::ContinuousSolveFailure => {
            &&& list.len() == 1
            &&& states(
                list[0],
                OperationKind::LeaveUnresolved,
                true,
                no_movement(0, 0, 0, 2),
                "do not exceed the movement/length gate or invent a repair"@,
            )
        },
        ProblemKind::InvalidSurfaceContour
        | ProblemKind::OtherSurfaceTopology
        | ProblemKind::OtherAxisAssembly => {
            &&& list.len() == 1
            &&& states(
                list[0],
                OperationKind::LeaveUnresolved,
                true,
                no_movement(0, 0, 0, 2),
                "no safe generic operation is available for this conflict yet"@,
            )
        },
    }
}

/// Weighs the operations that could settle a problem.
pub fn hypotheses(problem: &Problem) -> (list: Vec<Hypothesis>)
    ensures
        hypotheses_for(list@, *problem),
{
    let joint: bool = problem.evidence.structural_joint;
    let waits: bool = problem.evidence.depends_on_unbuilt_surface;
    let mut list: Vec<Hypothesis> = Vec::new();
    match problem.kind {
        ProblemKind::DegenerateHole => {
            list.push(
                hypothesis(
                    OperationKind::PreserveHole,
                    true,
                    still(0, 0, 1, 1),
                    "the opening collapses under closure; preserve it and defer constrained meshing",
                ),
            );
            list.push(
                hypothesis(
                    OperationKind::CloseHole,
                    false,
                    still(1, 1, 1, 0),
                    "rejected because closure would erase or collapse a source opening",
                ),
            );
        },
        ProblemKind::NonCollinearSharedAnchor => {
            if joint {
                list.push(
                    hypothesis(
                        OperationKind::SplitAxisAtStructuralJoint,
                        true,
                        still(0, 0, 1, 0),
                        "incident constructions form a direct structural joint; keep one shared vertex and separate constructive segments",
                    ),
                );
            } else {
                list.push(
                    hypothesis(
                        OperationKind::SplitAxisAtStructuralJoint,
                        false,
                        still(1, 0, 1, 0),
                        "not selected because direct-joint evidence is insufficient",
                    ),
                );
            }
            list.push(
                hypothesis(
                    OperationKind::LeaveUnresolved,
                    true,
                    still(0, 1, 0, 2),
                    "retain the conflict explicitly if a structural split cannot be proven",
                ),
            );
        },
        ProblemKind::UnavailableSharedAnchor => {
            if waits {
                list.push(
                    hypothesis(
                        OperationKind::DeferUntilSurfaceResolved,
                        true,
                        still(0, 0, 0, 1),
                        "keep the bar provenance and retry after its owning surface component is resolved",
                    ),
                );
            } else {
                list.push(
                    hypothesis(
                        OperationKind::DeferUntilSurfaceResolved,
                        false,
                        still(1, 0, 0, 1),
                        "no explicit surface dependency was found",
                    ),
                );
            }
            list.push(
                hypothesis(
                    OperationKind::LeaveUnresolved,
                    true,
                    still(0, 1, 0, 2),
                    "do not drop or invent the unavailable anchor",
                ),
            );
        },
        ProblemKind::ContinuousConstraintResidual => {
            let finite: bool = match problem.evidence.residual {
                Some(residual) => residual.is_finite(),
                None => false,
            };
            list.push(
                hypothesis(
                    OperationKind::RetryContinuousSolve,
                    finite,
                    still(0, 0, 0, 1),
                    "the residual is finite; retry the continuous solve with its strict gate",
                ),
            );
            list.push(
                hypothesis(
                    OperationKind::LeaveUnresolved,
                    true,
                    still(0, 1, 0, 2),
                    "retain the numerical conflict if a retry cannot satisfy the tolerance",
                ),
            );
        },
        ProblemKind::ContinuousMovementBudget
        | ProblemKind::ContinuousAxisFailure
        | ProblemKind::ContinuousSolveFailure => {
            list.push(
                hypothesis(
                    OperationKind::LeaveUnresolved,
                    true,
                    still(0, 0, 0, 2),
                    "do not exceed the movement/length gate or invent a repair",
                ),
            );
        },
        ProblemKind::InvalidSurfaceContour
        | ProblemKind::OtherSurfaceTopology
        | ProblemKind::OtherAxisAssembly => {
            list.push(
                hypothesis(
                    OperationKind::LeaveUnresolved,
                    true,
                    still(0, 0, 0, 2),
                    "no safe generic operation is available for this conflict yet",
                ),
            );
        },
    }
    list
}

pub open spec fn rank_of(operation: OperationKind) -> usize {
    match operation {
        OperationKind::SplitAxisAtStructuralJoint => 0,
        OperationKind::PreserveHole => 1,
        OperationKind::DeferUntilSurfaceResolved => 2,
        OperationKind::RetryContinuousSolve => 3,
        OperationKind::CloseHole => 4,
        OperationKind::LeaveUnresolved => 5,
    }
}

/// Operations of equal score are taken in this order.
pub fn operation_rank(operation: OperationKind) -> (r: usize)
    ensures
        r == rank_of(operation),
{
    match operation {
        OperationKind::SplitAxisAtStructuralJoint => 0,
        OperationKind::PreserveHole => 1,
        OperationKind::DeferUntilSurfaceResolved => 2,
        OperationKind::RetryContinuousSolve => 3,
        OperationKind::CloseHole => 4,
        OperationKind::LeaveUnresolved => 5,
    }
}

/// `a` is preferred to `b`: fewer hard violations, then less semantic loss, less
/// movement, fewer edits, a smaller mesh penalty, a lower rank.
pub open spec fn preferred(a: Hypothesis, b: Hypothesis) -> bool {
    if a.score.hard_violations != b.score.hard_violations {
        a.score.hard_violations < b.score.hard_violations
    } else if a.score.semantic_loss != b.score.semantic_loss {
        a.score.semantic_loss < b.score.semantic_loss
    } else if a.score.normalized_movement.total_rank() != b.score.normalized_movement.total_rank() {
        a.score.normalized_movement.total_rank() < b.score.normalized_movement.total_rank()
    } else if a.score.topology_edits != b.score.topology_edits {
        a.score.topology_edits < b.score.topology_edits
    } else if a.score.mesh_penalty != b.score.mesh_penalty {
        a.score.mesh_penalty < b.score.mesh_penalty
    } else {
        rank_of(a.operation) < rank_of(b.operation)
    }
}

fn is_preferred(a: &Hypothesis, b: &Hypothesis) -> (r: bool)
    ensures
        r == preferred(*a, *b),
{
    let first: i64 = a.score.normalized_movement.total_key();
    let second: i64 = b.score.normalized_movement.total_key();
    if a.score.hard_violations != b.score.hard_violations {
        a.score.hard_violations < b.score.hard_violations
    } else if a.score.semantic_loss != b.score.semantic_loss {
        a.score.semantic_loss < b.score.semantic_loss
    } else if first != second {
        first < second
    } else if a.score.topology_edits != b.score.topology_edits {
        a.score.topology_edits < b.score.topology_edits
    } else if a.score.mesh_penalty != b.score.mesh_penalty {
        a.score.mesh_penalty < b.score.mesh_penalty
    } else {
        operation_rank(a.operation) < operation_rank(b.operation)
    }
}

pub open spec fn some_feasible(list: Seq<Hypothesis>) -> bool {
    exists|i: int| 0 <= i < list.len() && (#[trigger] list[i]).feasible
}

/// The first of the best feasible hypotheses.
pub open spec fn best(list: Seq<Hypothesis>, i: int) -> bool {
    &&& 0 <= i < list.len()
    &&& list[i].feasible
    &&& forall|j: int|
        0 <= j < list.len() && (#[trigger] list[j]).feasible ==> !preferred(list[j], list[i])
    &&& forall|j: int| 0 <= j < i && (#[trigger] list[j]).feasible ==> preferred(list[i], list[j])
}

pub open spec fn same_statement(a: Hypothesis, b: Hypothesis) -> bool {
    &&& a.operation == b.operation
    &&& a.feasible == b.feasible
    &&& a.score == b.score
    &&& a.rationale@ == b.rationale@
}

pub open spec fn chosen(selected: Hypothesis, list: Seq<Hypothesis>) -> bool {
    if some_feasible(list) {
        exists|i: int| #[trigger] best(list, i) && same_statement(selected, list[i])
    } else {
        states(
            selected,
            OperationKind::LeaveUnresolved,
            true,
            no_movement(0, 1, 0, 2),
            "all generated operations were rejected"@,
        )
    }
}

/// Chooses the best feasible hypothesis; the problem stays unresolved where none
/// is feasible.
#[verifier::loop_isolation(false)]
pub fn choose_hypothesis(list: &Vec<Hypothesis>) -> (selected: Hypothesis)
    ensures
        chosen(selected, list@),
{
    let mut found: Option<usize> = None;
    let mut i: usize = 0;
    while i < list.len()
        invariant
            i <= list.len(),
            match found {
                None => forall|j: int| 0 <= j < i ==> !(#[trigger] list@[j]).feasible,
                Some(k) => {
                    &&& k < i
                    &&& list@[k as int].feasible
                    &&& forall|j: int|
                        0 <= j < i && (#[trigger] list@[j]).feasible ==> !preferred(list@[j], list@[k as int])
                    &&& forall|j: int| 0 <= j < k && (#[trigger] list@[j]).feasible ==> preferred(list@[k as int], list@[j])
                },
            },
        decreases list.len() - i,
    {
        if list[i].feasible {
            match found {
                None => {
                    found = Some(i);
                },
                Some(k) => {
                    if is_preferred(&list[i], &list[k]) {
                        proof {
                            assert forall|j: int| 0 <= j < i && (#[trigger] list@[j]).feasible implies preferred(list@[i as int], list@[j]) by {
                                assert(!preferred(list@[j], list@[k as int]));
                            }
                        }
                        found = Some(i);
                    }
                },
            }
        }
        i += 1;
    }
    match found {
        Some(k) => {
            assert(best(list@, k as int));
            Hypothesis {
                operation: list[k].operation,
                feasible: list[k].feasible,
                score: list[k].score,
                rationale: list[k].rationale.clone(),
            }
        },
        None => hypothesis(
            OperationKind::LeaveUnresolved,
            true,
            still(0, 1, 0, 2),
            "all generated operations were rejected",
        ),
    }
}

/// Only one hypothesis is the first of the best.
pub proof fn best_is_unique(list: Seq<Hypothesis>, i: int, j: int)
    requires
        best(list, i),
        best(list, j),
    ensures
        i == j,
{
    if i < j {
        assert(preferred(list[j], list[i]));
    } else if j < i {
        assert(preferred(list[i], list[j]));
    }
}

/// A structural joint is split, never forced straight.
pub proof fn structural_joint_is_split(problem: Problem, list: Seq<Hypothesis>, selected: Hypothesis)
    requires
        problem.kind == ProblemKind::NonCollinearSharedAnchor,
        hypotheses_for(list, problem),
        chosen(selected, list),
    ensures
        selected.operation == (if problem.evidence.structural_joint {
            OperationKind::SplitAxisAtStructuralJoint
        } else {
            OperationKind::LeaveUnresolved
        }),
{
    assert(list[1].feasible);
    let i = choose|i: int| #[trigger] best(list, i) && same_statement(selected, list[i]);
    if problem.evidence.structural_joint {
        assert(list[0].feasible);
        assert(preferred(list[0], list[1]));
    }
}

/// A collapsing opening is preserved, never filled.
pub proof fn degenerate_hole_is_preserved(problem: Problem, list: Seq<Hypothesis>, selected: Hypothesis)
    requires
        problem.kind == ProblemKind::DegenerateHole,
        hypotheses_for(list, problem),
        chosen(selected, list),
    ensures
        selected.operation == OperationKind::PreserveHole,
{
    assert(list[0].feasible);
    let i = choose|i: int| #[trigger] best(list, i) && same_statement(selected, list[i]);
    assert(list[i].feasible);
}

/// The selected operation is always a feasible one, and no hole is ever closed.
pub proof fn selection_is_feasible(problem: Problem, list: Seq<Hypothesis>, selected: Hypothesis)
    requires
        hypotheses_for(list, problem),
        chosen(selected, list),
    ensures
        selected.feasible,
        selected.operation != OperationKind::CloseHole,
{
    if some_feasible(list) {
        let i = choose|i: int| #[trigger] best(list, i) && same_statement(selected, list[i]);
        assert(list[i].feasible);
    }
}

pub open spec fn status_of(operation: OperationKind) -> DecisionStatus {
    match operation {
        OperationKind::LeaveUnresolved => DecisionStatus::Unresolved,
        OperationKind::DeferUntilSurfaceResolved
        | OperationKind::PreserveHole
        | OperationKind::RetryContinuousSolve => DecisionStatus::Deferred,
        OperationKind::SplitAxisAtStructuralJoint | OperationKind::CloseHole => DecisionStatus::Planned,
    }
}

pub fn decision_status(operation: OperationKind) -> (r: DecisionStatus)
    ensures
        r == status_of(operation),
{
    match operation {
        OperationKind::LeaveUnresolved => DecisionStatus::Unresolved,
        OperationKind::DeferUntilSurfaceResolved
        | OperationKind::PreserveHole
        | OperationKind::RetryContinuousSolve => DecisionStatus::Deferred,
        OperationKind::SplitAxisAtStructuralJoint | OperationKind::CloseHole => DecisionStatus::Planned,
    }
}

/// Labels by which problems share a node or an element.
pub open spec fn problem_labels(labels: Seq<u64>, problem: Problem) -> bool {
    &&& labels.len() == problem.source_nodes@.len() + problem.source_elements@.len()
    &&& forall|k: int|
        0 <= k < problem.source_nodes@.len() ==> #[trigger] labels[k] == 2 * problem.source_nodes@[k]
    &&& forall|k: int|
        0 <= k < problem.source_elements@.len() ==> #[trigger] labels[problem.source_nodes@.len() + k]
            == 2 * problem.source_elements@[k] + 1
}

pub open spec fn all_labels(labels: Seq<Vec<u64>>, problems: Seq<Problem>) -> bool {
    &&& labels.len() == problems.len()
    &&& forall|i: int| 0 <= i < problems.len() ==> problem_labels((#[trigger] labels[i])@, problems[i])
}

/// Two problems concern a common source node or element.
pub open spec fn problems_meet(problems: Seq<Problem>) -> spec_fn(int, int) -> bool {
    |a: int, b: int|
        0 <= a < problems.len() && 0 <= b < problems.len() && ((exists|node: u32| #[trigger]
            problems[a].source_nodes@.contains(node) && problems[b].source_nodes@.contains(node)) || (exists|
            element: u32,
        | #[trigger]
            problems[a].source_elements@.contains(element) && problems[b].source_elements@.contains(element)))
}

proof fn label_means(labels: Seq<u64>, problem: Problem, x: u64)
    requires
        problem_labels(labels, problem),
    ensures
        labels.contains(x) <==> (exists|node: u32| problem.source_nodes@.contains(node) && x == 2 * node)
            || (exists|element: u32| problem.source_elements@.contains(element) && x == 2 * element + 1),
{
    let nodes = problem.source_nodes@;
    let elements = problem.source_elements@;
    if labels.contains(x) {
        let k = choose|k: int| 0 <= k < labels.len() && labels[k] == x;
        if k < nodes.len() {
            assert(nodes.contains(nodes[k]) && x == 2 * nodes[k]);
        } else {
            let m = k - nodes.len();
            assert(labels[nodes.len() + m] == 2 * elements[m] + 1);
            assert(elements.contains(elements[m]) && x == 2 * elements[m] + 1);
        }
    }
    if exists|node: u32| nodes.contains(node) && x == 2 * node {
        let node = choose|node: u32| nodes.contains(node) && x == 2 * node;
        let k = choose|k: int| 0 <= k < nodes.len() && nodes[k] == node;
        assert(labels[k] == x);
    }
    if exists|element: u32| elements.contains(element) && x == 2 * element + 1 {
        let element = choose|element: u32| elements.contains(element) && x == 2 * element + 1;
        let m = choose|m: int| 0 <= m < elements.len() && elements[m] == element;
        assert(labels[nodes.len() + m] == x);
    }
}

proof fn labels_meet(labels: Seq<Vec<u64>>, problems: Seq<Problem>, a: int, b: int)
    requires
        all_labels(labels, problems),
        0 <= a < problems.len(),
        0 <= b < problems.len(),
    ensures
        share_label(labels)(a, b) <==> problems_meet(problems)(a, b),
{
    assert(problem_labels(labels[a]@, problems[a]));
    assert(problem_labels(labels[b]@, problems[b]));
    if share_label(labels)(a, b) {
        let x = choose|x: u64| #[trigger] labels[a]@.contains(x) && labels[b]@.contains(x);
        label_means(labels[a]@, problems[a], x);
        label_means(labels[b]@, problems[b], x);
        if exists|node: u32| problems[a].source_nodes@.contains(node) && x == 2 * node {
            let node = choose|node: u32| problems[a].source_nodes@.contains(node) && x == 2 * node;
            assert(problems[b].source_nodes@.contains(node));
        } else {
            let element = choose|element: u32| problems[a].source_elements@.contains(element) && x == 2 * element + 1;
            assert(problems[b].source_elements@.contains(element));
        }
    }
    if problems_meet(problems)(a, b) {
        if exists|node: u32| #[trigger] problems[a].source_nodes@.contains(node) && problems[b].source_nodes@.contains(node) {
            let node = choose|node: u32| #[trigger] problems[a].source_nodes@.contains(node) && problems[b].source_nodes@.contains(node);
            let x = (2 * node) as u64;
            label_means(labels[a]@, problems[a], x);
            label_means(labels[b]@, problems[b], x);
            assert(labels[a]@.contains(x));
        } else {
            let element = choose|element: u32| #[trigger] problems[a].source_elements@.contains(element) && problems[b].source_elements@.contains(element);
            let x = (2 * element + 1) as u64;
            label_means(labels[a]@, problems[a], x);
            label_means(labels[b]@, problems[b], x);
            assert(labels[a]@.contains(x));
        }
    }
}

/// The same problem but for the component it belongs to.
pub open spec fn same_problem(a: Problem, b: Problem) -> bool {
    a == (Problem { component: a.component, ..b })
}

pub open spec fn gathered_nodes(problems: Seq<Problem>, ids: Seq<usize>, upto: int) -> Seq<u32>
    decreases upto,
{
    if upto <= 0 {
        Seq::empty()
    } else {
        gathered_nodes(problems, ids, upto - 1) + problems[ids[upto - 1] as int].source_nodes@
    }
}

pub open spec fn gathered_elements(problems: Seq<Problem>, ids: Seq<usize>, upto: int) -> Seq<u32>
    decreases upto,
{
    if upto <= 0 {
        Seq::empty()
    } else {
        gathered_elements(problems, ids, upto - 1) + problems[ids[upto - 1] as int].source_elements@
    }
}

pub open spec fn component_of(component: Component, c: int, ids: Seq<usize>, problems: Seq<Problem>) -> bool {
    &&& component.id == c
    &&& component.problem_ids@ == ids
    &&& lists_distinct(component.source_nodes@, gathered_nodes(problems, ids, ids.len() as int))
    &&& lists_distinct(component.source_elements@, gathered_elements(problems, ids, ids.len() as int))
}

/// Problems that concern common source nodes or elements, directly or through
/// others, form a component; each problem knows the one it belongs to.
pub open spec fn partitioned(components: Seq<Component>, before: Seq<Problem>, after: Seq<Problem>) -> bool {
    &&& after.len() == before.len()
    &&& forall|i: int| 0 <= i < before.len() ==> same_problem(#[trigger] after[i], before[i])
    &&& exists|groups: Seq<Vec<usize>>| #[trigger]
        components_of(groups, before.len() as int, problems_meet(before)) && components.len() == groups.len()
            && (forall|c: int|
            0 <= c < groups.len() ==> component_of(#[trigger] components[c], c, groups[c]@, before))
            && forall|c: int, k: int|
            0 <= c < groups.len() && 0 <= k < groups[c]@.len() ==> after[#[trigger] groups[c]@[k] as int].component
                == c
}

#[verifier::loop_isolation(false)]
fn labels_of(problems: &Vec<Problem>) -> (labels: Vec<Vec<u64>>)
    ensures
        all_labels(labels@, problems@),
{
    let mut labels: Vec<Vec<u64>> = Vec::new();
    let mut i: usize = 0;
    while i < problems.len()
        invariant
            i <= problems.len(),
            labels.len() == i,
            forall|j: int| 0 <= j < i ==> problem_labels((#[trigger] labels@[j])@, problems@[j]),
        decreases problems.len() - i,
    {
        let ghost problem = problems@[i as int];
        let mut list: Vec<u64> = Vec::new();
        let mut k: usize = 0;
        while k < problems[i].source_nodes.len()
            invariant
                i < problems.len(),
                k <= problem.source_nodes@.len(),
                list.len() == k,
                forall|m: int| 0 <= m < k ==> #[trigger] list@[m] == 2 * problem.source_nodes@[m],
            decreases problem.source_nodes@.len() - k,
        {
            list.push(2 * (problems[i].source_nodes[k] as u64));
            k += 1;
        }
        let mut k: usize = 0;
        while k < problems[i].source_elements.len()
            invariant
                i < problems.len(),
                k <= problem.source_elements@.len(),
                list.len() == problem.source_nodes@.len() + k,
                forall|m: int| 0 <= m < problem.source_nodes@.len() ==> #[trigger] list@[m] == 2 * problem.source_nodes@[m],
                forall|m: int| 0 <= m < k ==> #[trigger] list@[problem.source_nodes@.len() + m] == 2 * problem.source_elements@[m] + 1,
            decreases problem.source_elements@.len() - k,
        {
            list.push(2 * (problems[i].source_elements[k] as u64) + 1);
            k += 1;
        }
        labels.push(list);
        i += 1;
    }
    labels
}

/// Partitions the problems into connected components.
#[verifier::loop_isolation(false)]
pub fn make_components(problems: &mut Vec<Problem>) -> (components: Vec<Component>)
    ensures
        partitioned(components@, old(problems)@, final(problems)@),
{
    let ghost start = problems@;
    let ghost count = problems@.len() as int;
    let labels = labels_of(problems);
    let groups = linked_groups(&labels);
    proof {
        let shared = share_label(labels@);
        let meets = problems_meet(start);
        assert forall|x: int, y: int| 0 <= x < count && 0 <= y < count && #[trigger] crate::connectivity::touch(shared, x, y) implies crate::connectivity::connected(count, meets, x, y) by {
            labels_meet(labels@, start, x, y);
            labels_meet(labels@, start, y, x);
            crate::connectivity::connected_step(count, meets, x, y);
        }
        assert forall|x: int, y: int| 0 <= x < count && 0 <= y < count && #[trigger] crate::connectivity::touch(meets, x, y) implies crate::connectivity::connected(count, shared, x, y) by {
            labels_meet(labels@, start, x, y);
            labels_meet(labels@, start, y, x);
            crate::connectivity::connected_step(count, shared, x, y);
        }
        crate::connectivity::components_transfer(groups@, count, shared, meets);
    }
    let mut components: Vec<Component> = Vec::new();
    let mut c: usize = 0;
    while c < groups.len()
        invariant
            c <= groups.len(),
            components.len() == c,
            problems@.len() == count,
            forall|i: int| 0 <= i < count ==> same_problem(#[trigger] problems@[i], start[i]),
            forall|d: int| 0 <= d < c ==> component_of(#[trigger] components@[d], d, groups@[d]@, start),
            forall|d: int, k: int|
                0 <= d < c && 0 <= k < groups@[d]@.len() ==> problems@[#[trigger] groups@[d]@[k] as int].component == d,
        decreases groups.len() - c,
    {
        let ghost ids = groups@[c as int]@;
        let mut source_elements: Vec<u32> = Vec::new();
        let mut source_nodes: Vec<u32> = Vec::new();
        let mut problem_ids: Vec<usize> = Vec::new();
        let mut k: usize = 0;
        while k < groups[c].len()
            invariant
                c < groups.len(),
                k <= ids.len(),
                problems@.len() == count,
                problem_ids@ == ids.take(k as int),
                source_nodes@ == gathered_nodes(start, ids, k as int),
                source_elements@ == gathered_elements(start, ids, k as int),
                forall|i: int| 0 <= i < count ==> same_problem(#[trigger] problems@[i], start[i]),
                forall|d: int, l: int|
                    0 <= d < c && 0 <= l < groups@[d]@.len() ==> problems@[#[trigger] groups@[d]@[l] as int].component == d,
                forall|l: int| 0 <= l < k ==> problems@[#[trigger] ids[l] as int].component == c,
            decreases ids.len() - k,
        {
            let i: usize = groups[c][k];
            let ghost before = problems@;
            assert(groups@[c as int]@[k as int] < count);
            append_ids(&mut source_nodes, &problems[i].source_nodes);
            append_ids(&mut source_elements, &problems[i].source_elements);
            assert(same_problem(problems@[i as int], start[i as int]));
            problem_ids.push(i);
            let mut problem = problems.remove(i);
            problem.component = c;
            problems.insert(i, problem);
            proof {
                assert(ids.take(k + 1) =~= ids.take(k as int).push(i));
                assert forall|j: int| 0 <= j < count implies same_problem(#[trigger] problems@[j], start[j]) by {
                    assert(same_problem(before[j], start[j]));
                }
                assert forall|d: int, l: int| 0 <= d < c && 0 <= l < groups@[d]@.len() implies problems@[#[trigger] groups@[d]@[l] as int].component == d by {
                    assert(before[groups@[d]@[l] as int].component == d);
                    assert(groups@[d]@[l] < count);
                    if groups@[d]@[l] == groups@[c as int]@[k as int] {
                        crate::connectivity::connected_reflexive(count, problems_meet(start), i as int);
                        assert(crate::connectivity::connected(count, problems_meet(start), groups@[d]@[l] as int, groups@[c as int]@[k as int] as int));
                        assert(d == c);
                    }
                }
                assert forall|l: int| 0 <= l < k + 1 implies problems@[#[trigger] ids[l] as int].component == c by {
                    assert(groups@[c as int]@[l] < count);
                    if l < k {
                        assert(before[ids[l] as int].component == c);
                    }
                }
            }
            k += 1;
        }
        assert(ids.take(k as int) =~= ids);
        let component = Component {
            id: c,
            problem_ids,
            source_elements: unique(source_elements),
            source_nodes: unique(source_nodes),
        };
        assert(component_of(component, c as int, ids, start));
        components.push(component);
        c += 1;
    }
    assert(components_of(groups@, count, problems_meet(start)));
    components
}

/// The decision on a problem.
pub open spec fn decided(decision: Decision, problem: Problem) -> bool {
    &&& decision.problem_id == problem.id
    &&& decision.component == problem.component
    &&& hypotheses_for(decision.hypotheses@, problem)
    &&& exists|selected: Hypothesis| #[trigger]
        chosen(selected, decision.hypotheses@) && decision.selected_operation == selected.operation
            && decision.rationale@ == selected.rationale@
    &&& decision.status == status_of(decision.selected_operation)
}

/// The problems whose decision has the status, in their order.
pub open spec fn with_status(decisions: Seq<Decision>, status: DecisionStatus, upto: int) -> Seq<usize>
    decreases upto,
{
    if upto <= 0 {
        Seq::empty()
    } else if decisions[upto - 1].status == status {
        with_status(decisions, status, upto - 1).push(decisions[upto - 1].problem_id)
    } else {
        with_status(decisions, status, upto - 1)
    }
}

pub open spec fn solve_error(source: frame::Report, policy: Policy) -> Option<Seq<char>> {
    if !policy.valid() {
        Some("invalid reconciliation policy"@)
    } else if source.node_ids@.len() != source.candidate_points@.len() {
        Some("reconciliation requires complete frame points"@)
    } else {
        None
    }
}

pub open spec fn report_decided(report: Report) -> bool {
    &&& report.decisions@.len() == report.problems@.len()
    &&& forall|i: int|
        0 <= i < report.problems@.len() ==> decided(
            #[trigger] report.decisions@[i],
            report.problems@[i],
        )
    &&& report.unresolved_problem_ids@ == with_status(
        report.decisions@,
        DecisionStatus::Unresolved,
        report.decisions@.len() as int,
    )
    &&& report.deferred_problem_ids@ == with_status(
        report.decisions@,
        DecisionStatus::Deferred,
        report.decisions@.len() as int,
    )
}

/// Plans what to do about each problem. Nothing is edited: no coordinate changes
/// before an operation is applied behind its own gates.
#[verifier::loop_isolation(false)]
pub fn solve(
    mesh: &MeshData,
    source: &frame::Report,
    topology: &assembly::Report,
    areas: &Vec<Option<Scalar>>,
    measures: &Vec<ScaleMeasure>,
    policy: &Policy,
) -> (r: Result<Report, &'static str>)
    requires
        areas@.len() == topology.issues@.len(),
        measures@.len() == global_start(*source, *topology),
    ensures
        match r {
            Ok(report) => {
                &&& solve_error(*source, *policy) is None
                &&& report.policy == *policy
                &&& exists|problems: Seq<Problem>| #[trigger]
                    problems_of(problems, *mesh, *source, *topology, areas@, measures@, *policy) && partitioned(
                        report.components@,
                        problems,
                        report.problems@,
                    )
                &&& report_decided(report)
                &&& !report.geometry_changed
                &&& !report.export_ready
            },
            Err(error) => solve_error(*source, *policy) == Some(error@),
        },
{
    if !policy.is_valid() {
        return Err("invalid reconciliation policy");
    }
    if source.node_ids.len() != source.candidate_points.len() {
        return Err("reconciliation requires complete frame points");
    }
    let mut problems = collect_problems(mesh, source, topology, areas, measures, policy);
    let ghost collected = problems@;
    let components = make_components(&mut problems);
    let mut decisions: Vec<Decision> = Vec::new();
    let mut unresolved_problem_ids: Vec<usize> = Vec::new();
    let mut deferred_problem_ids: Vec<usize> = Vec::new();
    let mut i: usize = 0;
    while i < problems.len()
        invariant
            i <= problems.len(),
            decisions.len() == i,
            forall|j: int| 0 <= j < i ==> decided(#[trigger] decisions@[j], problems@[j]),
            unresolved_problem_ids@ == with_status(decisions@, DecisionStatus::Unresolved, i as int),
            deferred_problem_ids@ == with_status(decisions@, DecisionStatus::Deferred, i as int),
        decreases problems.len() - i,
    {
        let ghost before = decisions@;
        let list = hypotheses(&problems[i]);
        let selected = choose_hypothesis(&list);
        let status = decision_status(selected.operation);
        if status == DecisionStatus::Unresolved {
            unresolved_problem_ids.push(problems[i].id);
        }
        if status == DecisionStatus::Deferred {
            deferred_problem_ids.push(problems[i].id);
        }
        let ghost choice = selected;
        let decision = Decision {
            problem_id: problems[i].id,
            component: problems[i].component,
            status,
            selected_operation: selected.operation,
            hypotheses: list,
            rationale: selected.rationale,
        };
        proof {
            assert(chosen(choice, decision.hypotheses@));
            assert(decided(decision, problems@[i as int]));
        }
        decisions.push(decision);
        proof {
            with_status_grows(before, decisions@, DecisionStatus::Unresolved, i as int);
            with_status_grows(before, decisions@, DecisionStatus::Deferred, i as int);
        }
        i += 1;
    }
    assert(problems_of(collected, *mesh, *source, *topology, areas@, measures@, *policy));
    Ok(
        Report {
            policy: *policy,
            problems,
            components,
            decisions,
            unresolved_problem_ids,
            deferred_problem_ids,
            geometry_changed: false,
            export_ready: false,
        },
    )
}

proof fn with_status_grows(before: Seq<Decision>, after: Seq<Decision>, status: DecisionStatus, upto: int)
    requires
        0 <= upto <= before.len() <= after.len(),
        forall|i: int| 0 <= i < before.len() ==> after[i] == before[i],
    ensures
        with_status(before, status, upto) == with_status(after, status, upto),
    decreases upto,
{
    if upto > 0 {
        with_status_grows(before, after, status, upto - 1);
    }
}

/// Only one of two different operations comes first, and to leave a problem is always last.
pub proof fn leaving_comes_last(a: OperationKind, b: OperationKind)
    ensures
        rank_of(a) == rank_of(b) <==> a == b,
        rank_of(a) <= rank_of(OperationKind::LeaveUnresolved),
        rank_of(OperationKind::SplitAxisAtStructuralJoint) <= rank_of(a),
        rank_of(OperationKind::PreserveHole) < rank_of(OperationKind::DeferUntilSurfaceResolved),
        rank_of(OperationKind::DeferUntilSurfaceResolved) < rank_of(OperationKind::RetryContinuousSolve),
        rank_of(OperationKind::RetryContinuousSolve) < rank_of(OperationKind::CloseHole),
{
}

/// What is weighed first decides: hard violations, then what is lost, then movement, then
/// edits, then the mesh. Less is preferred, and no two hypotheses are each preferred.
pub proof fn hard_violations_weigh_most(a: Hypothesis, b: Hypothesis, c: Hypothesis)
    ensures
        a.score.hard_violations < b.score.hard_violations ==> preferred(a, b),
        a.score.hard_violations == b.score.hard_violations && a.score.semantic_loss < b.score.semantic_loss ==> preferred(a, b),
        a.score.hard_violations == b.score.hard_violations && a.score.semantic_loss == b.score.semantic_loss
            && a.score.normalized_movement.total_rank() < b.score.normalized_movement.total_rank() ==> preferred(a, b),
        a.score.hard_violations == b.score.hard_violations && a.score.semantic_loss == b.score.semantic_loss
            && a.score.normalized_movement == b.score.normalized_movement && a.score.topology_edits < b.score.topology_edits
            ==> preferred(a, b),
        a.score.hard_violations == b.score.hard_violations && a.score.semantic_loss == b.score.semantic_loss
            && a.score.normalized_movement == b.score.normalized_movement && a.score.topology_edits == b.score.topology_edits
            && a.score.mesh_penalty < b.score.mesh_penalty ==> preferred(a, b),
        a.score == b.score ==> (preferred(a, b) <==> rank_of(a.operation) < rank_of(b.operation)),
        !(preferred(a, b) && preferred(b, a)),
        preferred(a, b) && preferred(b, c) ==> preferred(a, c),
{
}

/// A decision is planned only for a split, unresolved only where nothing is done, and deferred
/// otherwise; so nothing planned or deferred is left as it is.
pub proof fn statuses_follow_operations(problem: Problem, decision: Decision)
    requires
        decided(decision, problem),
    ensures
        decision.problem_id == problem.id,
        decision.component == problem.component,
        decision.status == DecisionStatus::Planned <==> decision.selected_operation
            == OperationKind::SplitAxisAtStructuralJoint,
        decision.status == DecisionStatus::Unresolved <==> decision.selected_operation == OperationKind::LeaveUnresolved,
        decision.status == DecisionStatus::Deferred <==> decision.selected_operation == OperationKind::PreserveHole
            || decision.selected_operation == OperationKind::DeferUntilSurfaceResolved || decision.selected_operation
            == OperationKind::RetryContinuousSolve,
{
    let selected = choose|selected: Hypothesis| #[trigger]
        chosen(selected, decision.hypotheses@) && decision.selected_operation == selected.operation
            && decision.rationale@ == selected.rationale@;
    selection_is_feasible(problem, decision.hypotheses@, selected);
}

/// What is decided of a problem follows from its kind and its evidence. A joint is split where
/// it is a structural one, an anchor waits where its surface does, a solve is tried again where
/// its residual is finite, an opening stays, and all else is left.
pub proof fn evidence_settles_the_decision(problem: Problem, decision: Decision)
    requires
        decided(decision, problem),
    ensures
        decision.selected_operation == match problem.kind {
            ProblemKind::DegenerateHole => OperationKind::PreserveHole,
            ProblemKind::NonCollinearSharedAnchor => if problem.evidence.structural_joint {
                OperationKind::SplitAxisAtStructuralJoint
            } else {
                OperationKind::LeaveUnresolved
            },
            ProblemKind::UnavailableSharedAnchor => if problem.evidence.depends_on_unbuilt_surface {
                OperationKind::DeferUntilSurfaceResolved
            } else {
                OperationKind::LeaveUnresolved
            },
            ProblemKind::ContinuousConstraintResidual => if problem.evidence.residual is Some
                && problem.evidence.residual->0.finite() {
                OperationKind::RetryContinuousSolve
            } else {
                OperationKind::LeaveUnresolved
            },
            _ => OperationKind::LeaveUnresolved,
        },
{
    let list = decision.hypotheses@;
    let selected = choose|selected: Hypothesis| #[trigger]
        chosen(selected, list) && decision.selected_operation == selected.operation && decision.rationale@
            == selected.rationale@;
    let last = list.len() - 1;
    assert(list[0].feasible || list[last].feasible);
    assert(some_feasible(list));
    let i = choose|i: int| #[trigger] best(list, i) && same_statement(selected, list[i]);
    if list.len() == 2 && list[0].feasible && list[1].feasible {
        assert(preferred(list[0], list[1]));
        assert(!preferred(list[0], list[i]));
    }
}

/// No hypothesis moves anything, and only what is not feasible breaks a rule.
pub proof fn hypotheses_move_nothing(problem: Problem, list: Seq<Hypothesis>, i: int)
    requires
        hypotheses_for(list, problem),
        0 <= i < list.len(),
    ensures
        list[i].score.normalized_movement == Scalar::spec_zero(),
        list[i].feasible ==> list[i].score.hard_violations == 0,
        list.last().operation == OperationKind::LeaveUnresolved ==> list.last().feasible,
{
}

proof fn status_listed(decisions: Seq<Decision>, status: DecisionStatus, upto: int, id: usize)
    requires
        0 <= upto <= decisions.len(),
    ensures
        with_status(decisions, status, upto).contains(id) <==> exists|k: int|
            0 <= k < upto && (#[trigger] decisions[k]).status == status && decisions[k].problem_id == id,
    decreases upto,
{
    if upto > 0 {
        status_listed(decisions, status, upto - 1, id);
        crate::ordering::pushed_contains(with_status(decisions, status, upto - 1), decisions[upto - 1].problem_id, id);
    }
}

/// A report lists exactly the problems that were left among the unresolved ones, and exactly
/// those that wait among the deferred ones. Every problem has its decision.
pub proof fn reports_list_what_is_open(report: Report, id: usize)
    requires
        report_decided(report),
    ensures
        report.decisions@.len() == report.problems@.len(),
        report.unresolved_problem_ids@.contains(id) <==> exists|k: int|
            0 <= k < report.problems@.len() && (#[trigger] report.decisions@[k]).selected_operation
                == OperationKind::LeaveUnresolved && report.problems@[k].id == id,
        report.deferred_problem_ids@.contains(id) <==> exists|k: int|
            0 <= k < report.problems@.len() && (#[trigger] report.decisions@[k]).selected_operation
                != OperationKind::LeaveUnresolved && report.decisions@[k].selected_operation
                != OperationKind::SplitAxisAtStructuralJoint && report.problems@[k].id == id,
{
    let decisions = report.decisions@;
    let n = decisions.len() as int;
    status_listed(decisions, DecisionStatus::Unresolved, n, id);
    status_listed(decisions, DecisionStatus::Deferred, n, id);
    assert forall|k: int| 0 <= k < n implies {
        let decision = #[trigger] decisions[k];
        &&& decision.problem_id == report.problems@[k].id
        &&& decision.status == DecisionStatus::Unresolved <==> decision.selected_operation == OperationKind::LeaveUnresolved
        &&& decision.status == DecisionStatus::Deferred <==> decision.selected_operation != OperationKind::LeaveUnresolved
            && decision.selected_operation != OperationKind::SplitAxisAtStructuralJoint
    } by {
        statuses_follow_operations(report.problems@[k], decisions[k]);
    }
}

/// Problems with a node or an element in common are in one component.
pub proof fn problems_in_common_are_together(components: Seq<Component>, before: Seq<Problem>, after: Seq<Problem>, a: int, b: int)
    requires
        partitioned(components, before, after),
        0 <= a < before.len() <= usize::MAX,
        0 <= b < before.len(),
        (exists|node: u32| #[trigger] before[a].source_nodes@.contains(node) && before[b].source_nodes@.contains(node)) || (exists|
            element: u32,
        | #[trigger] before[a].source_elements@.contains(element) && before[b].source_elements@.contains(element)),
    ensures
        after[a].component == after[b].component,
        after[a].id == before[a].id && after[a].kind == before[a].kind && after[a].evidence == before[a].evidence,
{
    let groups = choose|groups: Seq<Vec<usize>>| #[trigger]
        components_of(groups, before.len() as int, problems_meet(before)) && components.len() == groups.len() && (forall|c: int|
            0 <= c < groups.len() ==> component_of(#[trigger] components[c], c, groups[c]@, before)) && forall|c: int, k: int|
            0 <= c < groups.len() && 0 <= k < groups[c]@.len() ==> after[#[trigger] groups[c]@[k] as int].component == c;
    assert(problems_meet(before)(a, b));
    assert(same_problem(after[a], before[a]));
    related_in_one_group(groups, before.len() as int, problems_meet(before), a, b);
    let g = choose|g: int| 0 <= g < groups.len() && #[trigger] groups[g]@.contains(a as usize) && groups[g]@.contains(b as usize);
    let i = choose|i: int| 0 <= i < groups[g]@.len() && groups[g]@[i] == a as usize;
    let j = choose|j: int| 0 <= j < groups[g]@.len() && groups[g]@[j] == b as usize;
    assert(after[groups[g]@[i] as int].component == g);
    assert(after[groups[g]@[j] as int].component == g);
}

/// Two problems have a label in common exactly when they have a node or an element in common.
pub proof fn labels_tell_what_is_shared(a: Seq<u64>, first: Problem, b: Seq<u64>, second: Problem, label: u64)
    requires
        problem_labels(a, first),
        problem_labels(b, second),
        a.contains(label),
        b.contains(label),
    ensures
        label % 2 == 0 ==> first.source_nodes@.contains((label / 2) as u32) && second.source_nodes@.contains((label / 2) as u32),
        label % 2 == 1 ==> first.source_elements@.contains((label / 2) as u32) && second.source_elements@.contains((label / 2) as u32),
{
    label_names(a, first, label);
    label_names(b, second, label);
}

proof fn label_names(labels: Seq<u64>, problem: Problem, label: u64)
    requires
        problem_labels(labels, problem),
        labels.contains(label),
    ensures
        label % 2 == 0 ==> problem.source_nodes@.contains((label / 2) as u32),
        label % 2 == 1 ==> problem.source_elements@.contains((label / 2) as u32),
{
    let n = problem.source_nodes@.len() as int;
    let k = choose|k: int| 0 <= k < labels.len() && labels[k] == label;
    if k < n {
        assert(labels[k] == 2 * problem.source_nodes@[k]);
        assert((label / 2) as u32 == problem.source_nodes@[k]);
    } else {
        assert(labels[n + (k - n)] == 2 * problem.source_elements@[k - n] + 1);
        assert((label / 2) as u32 == problem.source_elements@[k - n]);
    }
}

/// A frame is reconciled exactly under a valid policy and with a point for every node.
pub proof fn whole_frames_are_reconciled(source: frame::Report, policy: Policy)
    ensures
        solve_error(source, policy) is None <==> policy.valid() && source.candidate_points@.len() == source.node_ids@.len(),
        !policy.valid() ==> solve_error(source, policy) == Some("invalid reconciliation policy"@),
{
}

proof fn gathered_lists(problems: Seq<Problem>, ids: Seq<usize>, upto: int, id: u32)
    requires
        0 <= upto <= ids.len(),
    ensures
        gathered_nodes(problems, ids, upto).contains(id) <==> exists|k: int|
            0 <= k < upto && problems[#[trigger] ids[k] as int].source_nodes@.contains(id),
        gathered_elements(problems, ids, upto).contains(id) <==> exists|k: int|
            0 <= k < upto && problems[#[trigger] ids[k] as int].source_elements@.contains(id),
    decreases upto,
{
    if upto > 0 {
        gathered_lists(problems, ids, upto - 1, id);
        let last = problems[ids[upto - 1] as int];
        crate::shares::contains_either(gathered_nodes(problems, ids, upto - 1), last.source_nodes@, id);
        crate::shares::contains_either(gathered_elements(problems, ids, upto - 1), last.source_elements@, id);
    }
}

/// A component has its number, its problems, and exactly their nodes and elements.
pub proof fn components_gather_their_problems(component: Component, c: int, ids: Seq<usize>, problems: Seq<Problem>, id: u32)
    requires
        component_of(component, c, ids, problems),
    ensures
        component.id == c,
        component.problem_ids@ == ids,
        component.source_nodes@.contains(id) <==> exists|k: int|
            0 <= k < ids.len() && problems[#[trigger] ids[k] as int].source_nodes@.contains(id),
        component.source_elements@.contains(id) <==> exists|k: int|
            0 <= k < ids.len() && problems[#[trigger] ids[k] as int].source_elements@.contains(id),
{
    gathered_lists(problems, ids, ids.len() as int, id);
}

/// Partitioning changes of a problem nothing but its component, which has it among its own.
pub proof fn partitioning_keeps_the_problems(components: Seq<Component>, before: Seq<Problem>, after: Seq<Problem>, i: usize)
    requires
        partitioned(components, before, after),
        i < before.len(),
    ensures
        after.len() == before.len(),
        after[i as int].id == before[i as int].id,
        after[i as int].source_nodes == before[i as int].source_nodes,
        after[i as int].source_elements == before[i as int].source_elements,
        after[i as int].component < components.len(),
        components[after[i as int].component as int].id == after[i as int].component,
        components[after[i as int].component as int].problem_ids@.contains(i),
{
    assert(same_problem(after[i as int], before[i as int]));
    let groups = choose|groups: Seq<Vec<usize>>| #[trigger]
        components_of(groups, before.len() as int, problems_meet(before)) && components.len() == groups.len() && (forall|c: int|
            0 <= c < groups.len() ==> component_of(#[trigger] components[c], c, groups[c]@, before)) && forall|c: int, k: int|
            0 <= c < groups.len() && 0 <= k < groups[c]@.len() ==> after[#[trigger] groups[c]@[k] as int].component == c;
    assert(crate::connectivity::in_some_group(groups, i as int));
    let (c, k) = choose|c: int, k: int| 0 <= c < groups.len() && 0 <= k < groups[c]@.len() && #[trigger] groups[c]@[k] == i as int;
    assert(after[groups[c]@[k] as int].component == c);
    assert(component_of(components[c], c, groups[c]@, before));
    assert(components[c].problem_ids@[k] == i);
}

} // verus!
