//! Joint regularization of recognized axes: which coordinates are shared, how far
//! points may move, and what becomes of a proposal.
use vstd::prelude::*;
use crate::connectivity::{components_of, connected_groups, pair_relation};
use crate::input::Point;
use crate::ordering::{copy_ids, sorted_indices, stable_order};
use crate::reconstruction::recognize::{finite_point, is_finite_point, QUARTER_PI_BITS};
use crate::scalar::{is_positive, positive, Scalar};

verus! {

#[derive(Debug)]
pub struct Axis {
    pub ends: [usize; 2],
    pub source_elements: Vec<u32>,
    /// Explicitly protected inclinations or other intentional features.
    pub protected: bool,
}

#[derive(Debug, Clone, Copy, PartialEq, Eq, Structural)]
pub enum Direction {
    Vertical,
    Horizontal,
    Inclined,
}

#[derive(Debug, Clone, Copy)]
pub struct Policy {
    pub up: Point,
    pub angular_tolerance: Scalar,
    pub relative_movement: Scalar,
    pub maximum_movement: Scalar,
    pub minimum_length: Scalar,
}

#[derive(Debug, Clone, Copy, PartialEq, Eq, Structural)]
pub enum Failure {
    InvalidInput,
    BudgetExceeded,
    ProtectedAxis,
    DegenerateAxis,
}

/// A complete proposal.
#[derive(Debug)]
pub struct Regularized {
    pub points: Vec<Point>,
    pub directions: Vec<Direction>,
    pub movements: Vec<Scalar>,
    pub source_elements: Vec<Vec<u32>>,
}

impl Policy {
    /// `up_length` is the length of the up vector.
    pub open spec fn valid(&self, up_length: Scalar) -> bool {
        &&& finite_point(self.up)
        &&& positive(up_length)
        &&& positive(self.angular_tolerance)
        &&& self.angular_tolerance.lt(Scalar { bits: QUARTER_PI_BITS })
        &&& positive(self.relative_movement)
        &&& positive(self.maximum_movement)
        &&& positive(self.minimum_length)
    }

    pub fn is_valid(&self, up_length: &Scalar) -> (r: bool)
        ensures
            r == self.valid(*up_length),
    {
        is_finite_point(&self.up) && is_positive(up_length) && is_positive(&self.angular_tolerance)
            && self.angular_tolerance.less(&Scalar { bits: QUARTER_PI_BITS }) && is_positive(
            &self.relative_movement,
        ) && is_positive(&self.maximum_movement) && is_positive(&self.minimum_length)
    }
}

/// What is measured of an axis in the reference.
#[derive(Debug, Clone, Copy)]
pub struct AxisMeasure {
    pub length: Scalar,
    /// Absolute cosine of the angle to the up direction.
    pub cosine: Scalar,
    /// Movement that the length allows its ends.
    pub cap: Scalar,
}

/// Cosine and sine of the angular tolerance.
#[derive(Debug, Clone, Copy)]
pub struct AngleLimits {
    pub cosine: Scalar,
    pub sine: Scalar,
}

/// The direction of a line whose slope against the vertical has this cosine.
pub open spec fn leaning(cosine: Scalar, limits: AngleLimits) -> Direction {
    if limits.cosine.le(cosine) {
        Direction::Vertical
    } else if cosine.le(limits.sine) {
        Direction::Horizontal
    } else {
        Direction::Inclined
    }
}

pub fn lean(cosine: &Scalar, limits: &AngleLimits) -> (r: Direction)
    ensures
        r == leaning(*cosine, *limits),
{
    if limits.cosine.at_most(cosine) {
        Direction::Vertical
    } else if cosine.at_most(&limits.sine) {
        Direction::Horizontal
    } else {
        Direction::Inclined
    }
}

pub open spec fn direction_of(measure: AxisMeasure, limits: AngleLimits) -> Direction {
    leaning(measure.cosine, limits)
}

pub fn classify(measure: &AxisMeasure, limits: &AngleLimits) -> (r: Direction)
    ensures
        r == direction_of(*measure, *limits),
{
    lean(&measure.cosine, limits)
}

pub open spec fn axis_failure(axis: Axis, measure: AxisMeasure, points: int, policy: Policy) -> Option<Failure> {
    if axis.ends[0] >= points || axis.ends[1] >= points || axis.ends[0] == axis.ends[1] {
        Some(Failure::InvalidInput)
    } else if !measure.length.finite() || measure.length.lt(policy.minimum_length) {
        Some(Failure::DegenerateAxis)
    } else {
        None
    }
}

pub open spec fn first_axis_failure(
    axes: Seq<Axis>,
    measures: Seq<AxisMeasure>,
    points: int,
    policy: Policy,
    from: int,
) -> Option<Failure>
    decreases axes.len() - from,
{
    if from >= axes.len() {
        None
    } else {
        match axis_failure(axes[from], measures[from], points, policy) {
            Some(failure) => Some(failure),
            None => first_axis_failure(axes, measures, points, policy, from + 1),
        }
    }
}

/// Why no regularization can be set up; `None` where it can.
pub open spec fn plan_failure(
    reference: Seq<Point>,
    axes: Seq<Axis>,
    policy: Policy,
    up_length: Scalar,
    measures: Seq<AxisMeasure>,
) -> Option<Failure> {
    if !policy.valid(up_length) || exists|i: int|
        0 <= i < reference.len() && !finite_point(#[trigger] reference[i]) {
        Some(Failure::InvalidInput)
    } else {
        first_axis_failure(axes, measures, reference.len() as int, policy, 0)
    }
}

/// An end of the axis is at the point.
pub open spec fn ends_at(axis: Axis, point: int) -> bool {
    axis.ends[0] == point || axis.ends[1] == point
}

/// The least of the common bound and the caps of the axes at the point.
pub open spec fn budget_of(
    budget: Scalar,
    point: int,
    axes: Seq<Axis>,
    measures: Seq<AxisMeasure>,
    bound: Scalar,
    upto: int,
) -> bool {
    &&& budget == bound || exists|a: int|
        0 <= a < upto && ends_at(#[trigger] axes[a], point) && budget == measures[a].cap
    &&& !bound.lt(budget)
    &&& forall|a: int|
        0 <= a < upto && ends_at(#[trigger] axes[a], point) ==> !measures[a].cap.lt(budget)
}

/// Axes whose ends share a coordinate: the plan coordinates of a vertical axis,
/// the height of a horizontal one. Protected axes share nothing.
pub open spec fn ties_plan(axis: Axis, direction: Direction) -> bool {
    !axis.protected && direction == Direction::Vertical
}

pub open spec fn ties_height(axis: Axis, direction: Direction) -> bool {
    !axis.protected && direction == Direction::Horizontal
}

pub open spec fn plan_ties(axes: Seq<Axis>, directions: Seq<Direction>) -> spec_fn(int, int) -> bool {
    |p: int, q: int|
        exists|a: int|
            0 <= a < axes.len() && ties_plan(#[trigger] axes[a], directions[a]) && axes[a].ends[0] == p
                && axes[a].ends[1] == q
}

pub open spec fn height_ties(axes: Seq<Axis>, directions: Seq<Direction>) -> spec_fn(int, int) -> bool {
    |p: int, q: int|
        exists|a: int|
            0 <= a < axes.len() && ties_height(#[trigger] axes[a], directions[a]) && axes[a].ends[0] == p
                && axes[a].ends[1] == q
}

/// What a regularization averages and how far points may move.
#[derive(Debug)]
pub struct Plan {
    pub directions: Vec<Direction>,
    pub budgets: Vec<Scalar>,
    /// Points with common plan coordinates.
    pub plan_groups: Vec<Vec<usize>>,
    /// Points with a common height.
    pub height_groups: Vec<Vec<usize>>,
}

pub open spec fn planned(
    plan: Plan,
    reference: Seq<Point>,
    axes: Seq<Axis>,
    policy: Policy,
    measures: Seq<AxisMeasure>,
    limits: AngleLimits,
) -> bool {
    &&& plan.directions@.len() == axes.len()
    &&& forall|a: int|
        0 <= a < axes.len() ==> #[trigger] plan.directions@[a] == direction_of(measures[a], limits)
    &&& plan.budgets@.len() == reference.len()
    &&& forall|p: int|
        0 <= p < reference.len() ==> budget_of(
            #[trigger] plan.budgets@[p],
            p,
            axes,
            measures,
            policy.maximum_movement,
            axes.len() as int,
        )
    &&& components_of(
        plan.plan_groups@,
        reference.len() as int,
        plan_ties(axes, plan.directions@),
    )
    &&& components_of(
        plan.height_groups@,
        reference.len() as int,
        height_ties(axes, plan.directions@),
    )
}

fn lesser(a: Scalar, b: Scalar) -> (r: Scalar)
    ensures
        r == if b.lt(a) {
            b
        } else {
            a
        },
{
    if b.less(&a) {
        b
    } else {
        a
    }
}

proof fn budget_step(
    before: Scalar,
    after: Scalar,
    point: int,
    axes: Seq<Axis>,
    measures: Seq<AxisMeasure>,
    bound: Scalar,
    a: int,
)
    requires
        0 <= a < axes.len(),
        !bound.nan(),
        budget_of(before, point, axes, measures, bound, a),
        !before.nan(),
        ends_at(axes[a], point) ==> after == if measures[a].cap.lt(before) {
            measures[a].cap
        } else {
            before
        },
        !ends_at(axes[a], point) ==> after == before,
    ensures
        budget_of(after, point, axes, measures, bound, a + 1),
        !after.nan(),
{
    if before != bound {
        let b = choose|b: int| 0 <= b < a && ends_at(#[trigger] axes[b], point) && before == measures[b].cap;
        assert(ends_at(axes[b], point));
    }
    assert forall|b: int| 0 <= b < a + 1 && ends_at(#[trigger] axes[b], point) implies !measures[b].cap.lt(after) by {
        if b < a {
            assert(!measures[b].cap.lt(before));
        }
    }
}

/// Sets a regularization up. It always starts from the immutable reference, and
/// shared end indices are the only evidence of a connection.
#[verifier::rlimit(40)]
#[verifier::loop_isolation(false)]
pub fn plan(
    reference: &Vec<Point>,
    axes: &Vec<Axis>,
    policy: &Policy,
    up_length: &Scalar,
    measures: &Vec<AxisMeasure>,
    limits: &AngleLimits,
) -> (r: Result<Plan, Failure>)
    requires
        measures@.len() == axes@.len(),
    ensures
        match r {
            Ok(plan) => plan_failure(reference@, axes@, *policy, *up_length, measures@) is None && planned(
                plan,
                reference@,
                axes@,
                *policy,
                measures@,
                *limits,
            ),
            Err(failure) => plan_failure(reference@, axes@, *policy, *up_length, measures@) == Some(failure),
        },
{
    if !policy.is_valid(up_length) {
        return Err(Failure::InvalidInput);
    }
    let mut budgets: Vec<Scalar> = Vec::new();
    let mut i: usize = 0;
    while i < reference.len()
        invariant
            i <= reference.len(),
            budgets.len() == i,
            forall|j: int| 0 <= j < i ==> finite_point(#[trigger] reference@[j]),
            forall|j: int| 0 <= j < i ==> #[trigger] budgets@[j] == policy.maximum_movement,
        decreases reference.len() - i,
    {
        if !is_finite_point(&reference[i]) {
            assert(!finite_point(reference@[i as int]));
            return Err(Failure::InvalidInput);
        }
        budgets.push(policy.maximum_movement);
        i += 1;
    }
    let ghost count = reference@.len() as int;
    let mut directions: Vec<Direction> = Vec::new();
    let mut plan_edges: Vec<(usize, usize)> = Vec::new();
    let mut height_edges: Vec<(usize, usize)> = Vec::new();
    assert forall|p: int| 0 <= p < count implies budget_of(#[trigger] budgets@[p], p, axes@, measures@, policy.maximum_movement, 0) by {
    }
    let mut a: usize = 0;
    while a < axes.len()
        invariant
            a <= axes.len(),
            budgets.len() == count,
            directions.len() == a,
            first_axis_failure(axes@, measures@, count, *policy, 0) == first_axis_failure(axes@, measures@, count, *policy, a as int),
            forall|b: int| 0 <= b < a ==> #[trigger] directions@[b] == direction_of(measures@[b], *limits),
            forall|p: int| 0 <= p < count ==> budget_of(#[trigger] budgets@[p], p, axes@, measures@, policy.maximum_movement, a as int) && !budgets@[p].nan(),
            forall|k: int| 0 <= k < plan_edges.len() ==> (#[trigger] plan_edges@[k]).0 < count && plan_edges@[k].1 < count
                && exists|b: int| 0 <= b < a && ties_plan(#[trigger] axes@[b], directions@[b]) && axes@[b].ends[0] == plan_edges@[k].0 && axes@[b].ends[1] == plan_edges@[k].1,
            forall|k: int| 0 <= k < height_edges.len() ==> (#[trigger] height_edges@[k]).0 < count && height_edges@[k].1 < count
                && exists|b: int| 0 <= b < a && ties_height(#[trigger] axes@[b], directions@[b]) && axes@[b].ends[0] == height_edges@[k].0 && axes@[b].ends[1] == height_edges@[k].1,
            forall|b: int| 0 <= b < a && ties_plan(#[trigger] axes@[b], directions@[b]) ==> plan_edges@.contains((axes@[b].ends[0], axes@[b].ends[1])),
            forall|b: int| 0 <= b < a && ties_height(#[trigger] axes@[b], directions@[b]) ==> height_edges@.contains((axes@[b].ends[0], axes@[b].ends[1])),
        decreases axes.len() - a,
    {
        let first: usize = axes[a].ends[0];
        let second: usize = axes[a].ends[1];
        if first >= reference.len() || second >= reference.len() || first == second {
            return Err(Failure::InvalidInput);
        }
        if !measures[a].length.is_finite() || measures[a].length.less(&policy.minimum_length) {
            return Err(Failure::DegenerateAxis);
        }
        let direction = classify(&measures[a], limits);
        let ghost old_directions = directions@;
        let ghost old_plan = plan_edges@;
        let ghost old_height = height_edges@;
        let ghost old_budgets = budgets@;
        directions.push(direction);
        let lower: Scalar = lesser(budgets[first], measures[a].cap);
        budgets.set(first, lower);
        let lower: Scalar = lesser(budgets[second], measures[a].cap);
        budgets.set(second, lower);
        if !axes[a].protected {
            if direction == Direction::Vertical {
                plan_edges.push((first, second));
                assert(plan_edges@[old_plan.len() as int] == (first, second));
            }
            if direction == Direction::Horizontal {
                height_edges.push((first, second));
                assert(height_edges@[old_height.len() as int] == (first, second));
            }
        }
        proof {
            assert forall|p: int| 0 <= p < count implies budget_of(#[trigger] budgets@[p], p, axes@, measures@, policy.maximum_movement, a + 1) && !budgets@[p].nan() by {
                assert(budget_of(old_budgets[p], p, axes@, measures@, policy.maximum_movement, a as int));
                budget_step(old_budgets[p], budgets@[p], p, axes@, measures@, policy.maximum_movement, a as int);
            }
            assert forall|b: int| 0 <= b < a implies #[trigger] directions@[b] == old_directions[b] by {
            }
            assert forall|k: int| 0 <= k < plan_edges@.len() implies (#[trigger] plan_edges@[k]).0 < count && plan_edges@[k].1 < count
                && exists|b: int| 0 <= b < a + 1 && ties_plan(#[trigger] axes@[b], directions@[b]) && axes@[b].ends[0] == plan_edges@[k].0 && axes@[b].ends[1] == plan_edges@[k].1 by {
                if k < old_plan.len() {
                    assert(plan_edges@[k] == old_plan[k]);
                    let b = choose|b: int| 0 <= b < a && ties_plan(#[trigger] axes@[b], old_directions[b]) && axes@[b].ends[0] == old_plan[k].0 && axes@[b].ends[1] == old_plan[k].1;
                    assert(ties_plan(axes@[b], directions@[b]));
                } else {
                    assert(ties_plan(axes@[a as int], directions@[a as int]));
                }
            }
            assert forall|k: int| 0 <= k < height_edges@.len() implies (#[trigger] height_edges@[k]).0 < count && height_edges@[k].1 < count
                && exists|b: int| 0 <= b < a + 1 && ties_height(#[trigger] axes@[b], directions@[b]) && axes@[b].ends[0] == height_edges@[k].0 && axes@[b].ends[1] == height_edges@[k].1 by {
                if k < old_height.len() {
                    assert(height_edges@[k] == old_height[k]);
                    let b = choose|b: int| 0 <= b < a && ties_height(#[trigger] axes@[b], old_directions[b]) && axes@[b].ends[0] == old_height[k].0 && axes@[b].ends[1] == old_height[k].1;
                    assert(ties_height(axes@[b], directions@[b]));
                } else {
                    assert(ties_height(axes@[a as int], directions@[a as int]));
                }
            }
            assert forall|b: int| 0 <= b < a + 1 && ties_plan(#[trigger] axes@[b], directions@[b]) implies plan_edges@.contains((axes@[b].ends[0], axes@[b].ends[1])) by {
                if b < a {
                    assert(ties_plan(axes@[b], old_directions[b]));
                    let k = choose|k: int| 0 <= k < old_plan.len() && old_plan[k] == (axes@[b].ends[0], axes@[b].ends[1]);
                    assert(plan_edges@[k] == old_plan[k]);
                }
            }
            assert forall|b: int| 0 <= b < a + 1 && ties_height(#[trigger] axes@[b], directions@[b]) implies height_edges@.contains((axes@[b].ends[0], axes@[b].ends[1])) by {
                if b < a {
                    assert(ties_height(axes@[b], old_directions[b]));
                    let k = choose|k: int| 0 <= k < old_height.len() && old_height[k] == (axes@[b].ends[0], axes@[b].ends[1]);
                    assert(height_edges@[k] == old_height[k]);
                }
            }
        }
        a += 1;
    }
    let plan_groups = connected_groups(reference.len(), &plan_edges);
    let height_groups = connected_groups(reference.len(), &height_edges);
    proof {
        let by_plan = plan_ties(axes@, directions@);
        let plan_pairs = pair_relation(plan_edges@);
        assert forall|p: int, q: int| plan_pairs(p, q) implies #[trigger] by_plan(p, q) by {
            let k = choose|k: int| 0 <= k < plan_edges@.len() && #[trigger] plan_edges@[k] == (p as usize, q as usize) && plan_edges@[k].0 == p && plan_edges@[k].1 == q;
            let b = choose|b: int| 0 <= b < a && ties_plan(#[trigger] axes@[b], directions@[b]) && axes@[b].ends[0] == plan_edges@[k].0 && axes@[b].ends[1] == plan_edges@[k].1;
            assert(ties_plan(axes@[b], directions@[b]));
        }
        assert forall|p: int, q: int| by_plan(p, q) implies #[trigger] plan_pairs(p, q) by {
            let b = choose|b: int| 0 <= b < axes@.len() && ties_plan(#[trigger] axes@[b], directions@[b]) && axes@[b].ends[0] == p && axes@[b].ends[1] == q;
            let k = choose|k: int| 0 <= k < plan_edges@.len() && plan_edges@[k] == (axes@[b].ends[0], axes@[b].ends[1]);
            assert(plan_edges@[k] == (p as usize, q as usize));
        }
        crate::connectivity::same_relation(plan_groups@, count, plan_pairs, by_plan);
        let by_height = height_ties(axes@, directions@);
        let height_pairs = pair_relation(height_edges@);
        assert forall|p: int, q: int| height_pairs(p, q) implies #[trigger] by_height(p, q) by {
            let k = choose|k: int| 0 <= k < height_edges@.len() && #[trigger] height_edges@[k] == (p as usize, q as usize) && height_edges@[k].0 == p && height_edges@[k].1 == q;
            let b = choose|b: int| 0 <= b < a && ties_height(#[trigger] axes@[b], directions@[b]) && axes@[b].ends[0] == height_edges@[k].0 && axes@[b].ends[1] == height_edges@[k].1;
            assert(ties_height(axes@[b], directions@[b]));
        }
        assert forall|p: int, q: int| by_height(p, q) implies #[trigger] height_pairs(p, q) by {
            let b = choose|b: int| 0 <= b < axes@.len() && ties_height(#[trigger] axes@[b], directions@[b]) && axes@[b].ends[0] == p && axes@[b].ends[1] == q;
            let k = choose|k: int| 0 <= k < height_edges@.len() && height_edges@[k] == (axes@[b].ends[0], axes@[b].ends[1]);
            assert(height_edges@[k] == (p as usize, q as usize));
        }
        crate::connectivity::same_relation(height_groups@, count, height_pairs, by_height);
    }
    Ok(Plan { directions, budgets, plan_groups, height_groups })
}

pub open spec fn value_keys(keys: Seq<i128>, values: Seq<Scalar>) -> bool {
    &&& keys.len() == values.len()
    &&& forall|k: int| 0 <= k < values.len() ==> #[trigger] keys[k] == values[k].total_rank()
}

/// The order in which the coordinates of a group are summed. It does not depend
/// on the numbering of the input.
pub fn summation_order(values: &Vec<Scalar>) -> (order: Vec<usize>)
    ensures
        exists|keys: Seq<i128>| #[trigger] value_keys(keys, values@) && stable_order(keys, order@),
{
    let mut keys: Vec<i128> = Vec::new();
    let mut k: usize = 0;
    while k < values.len()
        invariant
            k <= values.len(),
            keys.len() == k,
            forall|m: int| 0 <= m < k ==> #[trigger] keys@[m] == values@[m].total_rank(),
        decreases values.len() - k,
    {
        keys.push(values[k].total_key() as i128);
        k += 1;
    }
    assert(value_keys(keys@, values@));
    sorted_indices(&keys)
}

/// What is measured of a moved axis.
#[derive(Debug, Clone, Copy)]
pub struct MovedAxis {
    pub length: Scalar,
    /// Projection on the reference axis.
    pub advance: Scalar,
}

/// What counts as no movement.
pub const STILL_BITS: u64 = 0x3ddb_7cdf_d9d7_bdbb;

pub open spec fn moved_failure(axis: Axis, moved: MovedAxis, movements: Seq<Scalar>, policy: Policy) -> Option<
    Failure,
> {
    let still = Scalar { bits: STILL_BITS };
    if axis.protected && (still.lt(movements[axis.ends[0] as int]) || still.lt(
        movements[axis.ends[1] as int],
    )) {
        Some(Failure::ProtectedAxis)
    } else if moved.length.lt(policy.minimum_length) || moved.advance.le(Scalar::spec_zero()) {
        Some(Failure::DegenerateAxis)
    } else {
        None
    }
}

pub open spec fn first_moved_failure(
    axes: Seq<Axis>,
    moved: Seq<MovedAxis>,
    movements: Seq<Scalar>,
    policy: Policy,
    from: int,
) -> Option<Failure>
    decreases axes.len() - from,
{
    if from >= axes.len() {
        None
    } else {
        match moved_failure(axes[from], moved[from], movements, policy) {
            Some(failure) => Some(failure),
            None => first_moved_failure(axes, moved, movements, policy, from + 1),
        }
    }
}

pub open spec fn over_budget(movements: Seq<Scalar>, allowances: Seq<Scalar>) -> bool {
    exists|i: int|
        0 <= i < movements.len() && (!(#[trigger] movements[i]).finite() || allowances[i].lt(movements[i]))
}

/// Why a proposal is refused; `None` where it is taken.
pub open spec fn proposal_failure(
    axes: Seq<Axis>,
    moved: Seq<MovedAxis>,
    movements: Seq<Scalar>,
    allowances: Seq<Scalar>,
    policy: Policy,
) -> Option<Failure> {
    if over_budget(movements, allowances) {
        Some(Failure::BudgetExceeded)
    } else {
        first_moved_failure(axes, moved, movements, policy, 0)
    }
}

/// Takes a proposal as a whole or refuses it: no graph is left half regularized.
/// `allowances` are the budgets of the points, with room for rounding.
#[verifier::loop_isolation(false)]
pub fn conclude(
    axes: &Vec<Axis>,
    directions: Vec<Direction>,
    points: Vec<Point>,
    movements: Vec<Scalar>,
    allowances: &Vec<Scalar>,
    moved: &Vec<MovedAxis>,
    policy: &Policy,
) -> (r: Result<Regularized, Failure>)
    requires
        allowances@.len() == movements@.len(),
        moved@.len() == axes@.len(),
        forall|a: int|
            0 <= a < axes@.len() ==> (#[trigger] axes@[a]).ends[0] < movements@.len() && axes@[a].ends[1]
                < movements@.len(),
    ensures
        match r {
            Ok(result) => {
                &&& proposal_failure(axes@, moved@, movements@, allowances@, *policy) is None
                &&& result.points == points
                &&& result.directions == directions
                &&& result.movements == movements
                &&& result.source_elements@.len() == axes@.len()
                &&& forall|a: int|
                    0 <= a < axes@.len() ==> (#[trigger] result.source_elements@[a])@
                        == axes@[a].source_elements@
            },
            Err(failure) => proposal_failure(axes@, moved@, movements@, allowances@, *policy) == Some(
                failure,
            ),
        },
{
    let mut i: usize = 0;
    while i < movements.len()
        invariant
            i <= movements.len(),
            forall|j: int| 0 <= j < i ==> (#[trigger] movements@[j]).finite() && !allowances@[j].lt(movements@[j]),
        decreases movements.len() - i,
    {
        if !movements[i].is_finite() || allowances[i].less(&movements[i]) {
            assert(!movements@[i as int].finite() || allowances@[i as int].lt(movements@[i as int]));
            return Err(Failure::BudgetExceeded);
        }
        i += 1;
    }
    let still = Scalar { bits: STILL_BITS };
    let mut source_elements: Vec<Vec<u32>> = Vec::new();
    let mut a: usize = 0;
    while a < axes.len()
        invariant
            a <= axes.len(),
            source_elements.len() == a,
            forall|b: int| 0 <= b < a ==> (#[trigger] source_elements@[b])@ == axes@[b].source_elements@,
            first_moved_failure(axes@, moved@, movements@, *policy, 0) == first_moved_failure(axes@, moved@, movements@, *policy, a as int),
        decreases axes.len() - a,
    {
        let first: usize = axes[a].ends[0];
        let second: usize = axes[a].ends[1];
        assert(axes@[a as int].ends[0] < movements@.len());
        if axes[a].protected && (still.less(&movements[first]) || still.less(&movements[second])) {
            return Err(Failure::ProtectedAxis);
        }
        if moved[a].length.less(&policy.minimum_length) || moved[a].advance.at_most(&Scalar::zero()) {
            return Err(Failure::DegenerateAxis);
        }
        source_elements.push(copy_ids(&axes[a].source_elements));
        a += 1;
    }
    Ok(Regularized { points, directions, movements, source_elements })
}

/// A proposal that is taken keeps every budget and moves no end of a protected
/// axis.
pub proof fn taken_proposal_keeps_limits(
    axes: Seq<Axis>,
    moved: Seq<MovedAxis>,
    movements: Seq<Scalar>,
    allowances: Seq<Scalar>,
    policy: Policy,
    i: int,
    a: int,
)
    requires
        proposal_failure(axes, moved, movements, allowances, policy) is None,
        0 <= i < movements.len(),
        0 <= a < axes.len(),
    ensures
        movements[i].finite() && !allowances[i].lt(movements[i]),
        axes[a].protected ==> !(Scalar { bits: STILL_BITS }).lt(movements[axes[a].ends[0] as int])
            && !(Scalar { bits: STILL_BITS }).lt(movements[axes[a].ends[1] as int]),
{
    assert(movements[i].finite() && !allowances[i].lt(movements[i]));
    no_moved_failure(axes, moved, movements, policy, 0, a);
}

proof fn no_moved_failure(
    axes: Seq<Axis>,
    moved: Seq<MovedAxis>,
    movements: Seq<Scalar>,
    policy: Policy,
    from: int,
    a: int,
)
    requires
        0 <= from <= a < axes.len(),
        first_moved_failure(axes, moved, movements, policy, from) is None,
    ensures
        moved_failure(axes[a], moved[a], movements, policy) is None,
    decreases axes.len() - from,
{
    if from < a {
        no_moved_failure(axes, moved, movements, policy, from + 1, a);
    }
}

/// A line near the vertical is vertical, one near the plane is horizontal, any other is
/// inclined; a steeper line is never nearer to the plane.
pub proof fn slopes_settle_directions(flat: Scalar, steep: Scalar, limits: AngleLimits)
    requires
        flat.le(steep),
        limits.sine.lt(limits.cosine),
    ensures
        leaning(steep, limits) == Direction::Vertical <==> limits.cosine.le(steep),
        leaning(steep, limits) == Direction::Horizontal <==> steep.le(limits.sine),
        leaning(steep, limits) == Direction::Inclined <==> limits.sine.lt(steep) && steep.lt(limits.cosine),
        leaning(flat, limits) == Direction::Vertical ==> leaning(steep, limits) == Direction::Vertical,
        leaning(steep, limits) == Direction::Horizontal ==> leaning(flat, limits) == Direction::Horizontal,
{
}

/// A vertical axis ties the plan places of its ends, a horizontal one their heights. Inclined
/// and protected axes tie nothing.
pub proof fn axes_tie_what_they_keep(axes: Seq<Axis>, directions: Seq<Direction>, a: int)
    requires
        0 <= a < axes.len(),
    ensures
        ties_plan(axes[a], directions[a]) <==> directions[a] == Direction::Vertical && !axes[a].protected,
        ties_height(axes[a], directions[a]) <==> directions[a] == Direction::Horizontal && !axes[a].protected,
        directions[a] == Direction::Vertical && !axes[a].protected ==> plan_ties(axes, directions)(
            axes[a].ends[0] as int,
            axes[a].ends[1] as int,
        ),
        directions[a] == Direction::Horizontal && !axes[a].protected ==> height_ties(axes, directions)(
            axes[a].ends[0] as int,
            axes[a].ends[1] as int,
        ),
{
    if ties_plan(axes[a], directions[a]) {
        assert(plan_ties(axes, directions)(axes[a].ends[0] as int, axes[a].ends[1] as int));
    }
    if ties_height(axes[a], directions[a]) {
        assert(height_ties(axes, directions)(axes[a].ends[0] as int, axes[a].ends[1] as int));
    }
}

/// No point may move farther than the common bound or than an axis at it allows; without an
/// axis it has the common bound.
pub proof fn budgets_are_least(
    plan: Plan,
    reference: Seq<Point>,
    axes: Seq<Axis>,
    policy: Policy,
    measures: Seq<AxisMeasure>,
    limits: AngleLimits,
    p: int,
)
    requires
        planned(plan, reference, axes, policy, measures, limits),
        0 <= p < reference.len(),
    ensures
        !policy.maximum_movement.lt(plan.budgets@[p]),
        forall|a: int|
            0 <= a < axes.len() && ((#[trigger] axes[a]).ends[0] == p || axes[a].ends[1] == p) ==> !measures[a].cap.lt(
                plan.budgets@[p],
            ),
        (forall|a: int| 0 <= a < axes.len() ==> (#[trigger] axes[a]).ends[0] != p && axes[a].ends[1] != p) ==> plan.budgets@[p]
            == policy.maximum_movement,
{
    assert(budget_of(plan.budgets@[p], p, axes, measures, policy.maximum_movement, axes.len() as int));
    assert forall|a: int|
        0 <= a < axes.len() && ((#[trigger] axes[a]).ends[0] == p || axes[a].ends[1] == p) implies !measures[a].cap.lt(
        plan.budgets@[p],
    ) by {
        assert(ends_at(axes[a], p));
    }
}

proof fn axes_without_failure(axes: Seq<Axis>, measures: Seq<AxisMeasure>, points: int, policy: Policy, from: int, a: int)
    requires
        first_axis_failure(axes, measures, points, policy, from) is None,
        0 <= from <= a < axes.len(),
    ensures
        axis_failure(axes[a], measures[a], points, policy) is None,
    decreases a - from,
{
    if from < a {
        axes_without_failure(axes, measures, points, policy, from + 1, a);
    }
}

/// A plan is made only for finite points and for axes that join two different ones of them and
/// are long enough.
pub proof fn plans_are_for_sound_axes(
    reference: Seq<Point>,
    axes: Seq<Axis>,
    policy: Policy,
    up_length: Scalar,
    measures: Seq<AxisMeasure>,
    a: int,
)
    requires
        plan_failure(reference, axes, policy, up_length, measures) is None,
        0 <= a < axes.len(),
    ensures
        axes[a].ends[0] < reference.len() && axes[a].ends[1] < reference.len() && axes[a].ends[0] != axes[a].ends[1],
        measures[a].length.finite() && !measures[a].length.lt(policy.minimum_length),
        forall|i: int| 0 <= i < reference.len() ==> finite_point(#[trigger] reference[i]),
        positive(policy.maximum_movement) && positive(policy.minimum_length) && positive(policy.relative_movement),
        policy.angular_tolerance.lt(Scalar { bits: 0x3fe9_21fb_5444_2d18 }),
{
    axes_without_failure(axes, measures, reference.len() as int, policy, 0, a);
}

/// A proposal is taken where every movement is within its allowance, protected axes stay put,
/// and every axis stays long enough and keeps its sense.
pub proof fn harmless_proposals_are_taken(
    axes: Seq<Axis>,
    moved: Seq<MovedAxis>,
    movements: Seq<Scalar>,
    allowances: Seq<Scalar>,
    policy: Policy,
    from: int,
)
    requires
        0 <= from <= axes.len(),
        forall|i: int| 0 <= i < movements.len() ==> (#[trigger] movements[i]).finite() && movements[i].le(allowances[i]),
        forall|a: int|
            0 <= a < axes.len() ==> policy.minimum_length.le((#[trigger] moved[a]).length) && Scalar::spec_zero().lt(moved[a].advance),
        forall|a: int|
            0 <= a < axes.len() && (#[trigger] axes[a]).protected ==> movements[axes[a].ends[0] as int].le(
                Scalar { bits: 0x3ddb_7cdf_d9d7_bdbb },
            ) && movements[axes[a].ends[1] as int].le(Scalar { bits: 0x3ddb_7cdf_d9d7_bdbb }),
    ensures
        first_moved_failure(axes, moved, movements, policy, from) is None,
        proposal_failure(axes, moved, movements, allowances, policy) is None,
    decreases axes.len() - from,
{
    if from < axes.len() {
        assert(policy.minimum_length.le(moved[from].length));
        harmless_proposals_are_taken(axes, moved, movements, allowances, policy, from + 1);
    }
    if from > 0 {
        harmless_from(axes, moved, movements, policy, 0, from);
    }
}

proof fn harmless_from(axes: Seq<Axis>, moved: Seq<MovedAxis>, movements: Seq<Scalar>, policy: Policy, start: int, from: int)
    requires
        0 <= start <= from <= axes.len(),
        forall|a: int|
            0 <= a < axes.len() ==> policy.minimum_length.le((#[trigger] moved[a]).length) && Scalar::spec_zero().lt(moved[a].advance),
        forall|a: int|
            0 <= a < axes.len() && (#[trigger] axes[a]).protected ==> movements[axes[a].ends[0] as int].le(
                Scalar { bits: 0x3ddb_7cdf_d9d7_bdbb },
            ) && movements[axes[a].ends[1] as int].le(Scalar { bits: 0x3ddb_7cdf_d9d7_bdbb }),
        first_moved_failure(axes, moved, movements, policy, from) is None,
    ensures
        first_moved_failure(axes, moved, movements, policy, start) is None,
    decreases from - start,
{
    if start < from {
        assert(policy.minimum_length.le(moved[start].length));
        harmless_from(axes, moved, movements, policy, start + 1, from);
    }
}

/// An axis is usable exactly between two different known points and with a finite length that
/// is not below the least.
pub proof fn usable_axes_have_a_length(axis: Axis, measure: AxisMeasure, points: int, policy: Policy)
    ensures
        axis_failure(axis, measure, points, policy) is None <==> axis.ends[0] < points && axis.ends[1] < points && axis.ends[0]
            != axis.ends[1] && measure.length.finite() && !measure.length.lt(policy.minimum_length),
        axis_failure(axis, measure, points, policy) == Some(Failure::InvalidInput) <==> axis.ends[0] >= points || axis.ends[1] >= points
            || axis.ends[0] == axis.ends[1],
{
}

/// No budget is above the common bound or above the cap of an axis that ends at the point.
pub proof fn budgets_are_the_least(budget: Scalar, point: int, axes: Seq<Axis>, measures: Seq<AxisMeasure>, bound: Scalar, upto: int, a: int)
    requires
        budget_of(budget, point, axes, measures, bound, upto),
        0 <= a < upto,
        axes[a].ends[0] == point || axes[a].ends[1] == point,
        !budget.nan() && !bound.nan() && !measures[a].cap.nan(),
    ensures
        budget.le(bound),
        budget.le(measures[a].cap),
{
    assert(ends_at(axes[a], point));
}

/// Where no axis ends at a point its budget is the common bound.
pub proof fn free_points_have_the_common_budget(budget: Scalar, point: int, axes: Seq<Axis>, measures: Seq<AxisMeasure>, bound: Scalar, upto: int)
    requires
        budget_of(budget, point, axes, measures, bound, upto),
        forall|a: int| 0 <= a < upto ==> (#[trigger] axes[a]).ends[0] != point && axes[a].ends[1] != point,
    ensures
        budget == bound,
{
}

/// A moved axis is refused exactly when it is protected and an end moved, or when it became too
/// short or turned round.
pub proof fn moved_axes_keep_their_sense(axis: Axis, moved: MovedAxis, movements: Seq<Scalar>, policy: Policy)
    ensures
        moved_failure(axis, moved, movements, policy) is None <==> (!axis.protected || (!(Scalar { bits: STILL_BITS }).lt(
            movements[axis.ends[0] as int],
        ) && !(Scalar { bits: STILL_BITS }).lt(movements[axis.ends[1] as int]))) && !moved.length.lt(policy.minimum_length)
            && !moved.advance.le(Scalar::spec_zero()),
{
}

} // verus!
