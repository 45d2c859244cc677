//! The equations of a joint solve: which there are, and which are not met.
use vstd::prelude::*;
use crate::input::MeshData;
use crate::ordering::{sorted_indices, stable_order};
use crate::reconstruction::axes::Direction;
use crate::reconstruction::frame::{
    indexed_axis, indexed_surface, prepared_for, Anchor, Axis, ConstraintFailure, ConstraintOrigin, Policy, Prepared,
    Surface,
};
use crate::reconstruction::planes::Patch;
use crate::reconstruction::recognize::RecognizedAxis;
use crate::scalar::Scalar;

verus! {

/// An equation to set up.
#[derive(Debug, Clone, Copy, PartialEq, Eq, Structural)]
pub struct Constraint {
    pub origin: ConstraintOrigin,
    /// The anchor of the axis, the direction square to it or the node of the support,
    /// by its place among them.
    pub place: usize,
}

/// An anchor stays on its axis in each of the three components.
pub open spec fn anchor_constraints(axis: usize, anchors: Seq<Anchor>, ids: Seq<u32>, upto: int) -> Seq<Constraint>
    decreases upto,
{
    if upto <= 0 {
        Seq::empty()
    } else {
        let k = upto - 1;
        let node_id = ids[anchors[k].node as int];
        anchor_constraints(axis, anchors, ids, k).push(
            Constraint { origin: ConstraintOrigin::AxisAnchor { axis, node_id, component: 0 }, place: k as usize },
        ).push(
            Constraint { origin: ConstraintOrigin::AxisAnchor { axis, node_id, component: 1 }, place: k as usize },
        ).push(
            Constraint { origin: ConstraintOrigin::AxisAnchor { axis, node_id, component: 2 }, place: k as usize },
        )
    }
}

/// In how many directions the ends of an axis stay together: a vertical axis in both
/// horizontal ones, a horizontal axis in height, an inclined axis in none.
pub open spec fn held_directions(direction: Direction) -> nat {
    match direction {
        Direction::Vertical => 2,
        Direction::Horizontal => 1,
        Direction::Inclined => 0,
    }
}

pub open spec fn direction_constraints(axis: usize, direction: Direction) -> Seq<Constraint> {
    Seq::new(
        held_directions(direction),
        |k: int| Constraint { origin: ConstraintOrigin::AxisDirection { axis }, place: k as usize },
    )
}

pub open spec fn axis_constraints(axes: Seq<Axis>, directions: Seq<Direction>, ids: Seq<u32>, upto: int) -> Seq<
    Constraint,
>
    decreases upto,
{
    if upto <= 0 {
        Seq::empty()
    } else {
        let a = upto - 1;
        axis_constraints(axes, directions, ids, a) + anchor_constraints(
            a as usize,
            axes[a].anchors@,
            ids,
            axes[a].anchors@.len() as int,
        ) + direction_constraints(a as usize, directions[a])
    }
}

/// The nodes of a support lie on its plane.
pub open spec fn incidence_constraints(plane: usize, nodes: Seq<usize>, ids: Seq<u32>) -> Seq<Constraint> {
    Seq::new(
        nodes.len(),
        |k: int|
            Constraint {
                origin: ConstraintOrigin::PlaneIncidence { plane, node_id: ids[nodes[k] as int] },
                place: k as usize,
            },
    )
}

pub open spec fn surface_constraints(surfaces: Seq<Surface>, ids: Seq<u32>, upto: int) -> Seq<Constraint>
    decreases upto,
{
    if upto <= 0 {
        Seq::empty()
    } else {
        let p = upto - 1;
        surface_constraints(surfaces, ids, p) + incidence_constraints(p as usize, surfaces[p].nodes@, ids)
    }
}

/// The axes and supports name nodes of the solve only.
pub open spec fn nodes_indexed(prepared: Prepared) -> bool {
    &&& forall|a: int, k: int|
        0 <= a < prepared.axes@.len() && 0 <= k < prepared.axes@[a].anchors@.len() ==> (
        #[trigger] prepared.axes@[a].anchors@[k]).node < prepared.node_ids@.len()
    &&& forall|p: int, k: int|
        0 <= p < prepared.surfaces@.len() && 0 <= k < prepared.surfaces@[p].nodes@.len()
            ==> #[trigger] prepared.surfaces@[p].nodes@[k] < prepared.node_ids@.len()
}

/// What a solve is prepared with names nodes of the solve only.
pub proof fn prepared_is_indexed(
    prepared: Prepared,
    mesh: MeshData,
    axes: Seq<RecognizedAxis>,
    patches: Seq<Patch>,
    policy: Policy,
    caps: Seq<Scalar>,
)
    requires
        prepared_for(prepared, mesh, axes, patches, policy, caps),
    ensures
        nodes_indexed(prepared),
{
    assert forall|a: int, k: int|
        0 <= a < prepared.axes@.len() && 0 <= k < prepared.axes@[a].anchors@.len() implies (
    #[trigger] prepared.axes@[a].anchors@[k]).node < prepared.node_ids@.len() by {
        assert(indexed_axis(prepared.axes@[a], axes[a], prepared.node_ids@));
    }
    assert forall|p: int, k: int|
        0 <= p < prepared.surfaces@.len()
            && 0 <= k < prepared.surfaces@[p].nodes@.len() implies #[trigger] prepared.surfaces@[p].nodes@[k]
        < prepared.node_ids@.len() by {
        assert(indexed_surface(prepared.surfaces@[p], patches[p], prepared.node_ids@));
    }
}

fn push_anchors(list: &mut Vec<Constraint>, axis: usize, anchors: &Vec<Anchor>, ids: &Vec<u32>)
    requires
        forall|k: int| 0 <= k < anchors@.len() ==> (#[trigger] anchors@[k]).node < ids@.len(),
    ensures
        final(list)@ == old(list)@ + anchor_constraints(axis, anchors@, ids@, anchors@.len() as int),
{
    let ghost before = list@;
    let mut k: usize = 0;
    while k < anchors.len()
        invariant
            k <= anchors@.len(),
            forall|m: int| 0 <= m < anchors@.len() ==> (#[trigger] anchors@[m]).node < ids@.len(),
            list@ =~= before + anchor_constraints(axis, anchors@, ids@, k as int),
        decreases anchors@.len() - k,
    {
        let node_id = ids[anchors[k].node];
        list.push(Constraint { origin: ConstraintOrigin::AxisAnchor { axis, node_id, component: 0 }, place: k });
        list.push(Constraint { origin: ConstraintOrigin::AxisAnchor { axis, node_id, component: 1 }, place: k });
        list.push(Constraint { origin: ConstraintOrigin::AxisAnchor { axis, node_id, component: 2 }, place: k });
        k += 1;
    }
}

fn push_directions(list: &mut Vec<Constraint>, axis: usize, direction: Direction)
    ensures
        final(list)@ == old(list)@ + direction_constraints(axis, direction),
{
    let origin = ConstraintOrigin::AxisDirection { axis };
    match direction {
        Direction::Vertical => {
            list.push(Constraint { origin, place: 0 });
            list.push(Constraint { origin, place: 1 });
        },
        Direction::Horizontal => {
            list.push(Constraint { origin, place: 0 });
        },
        Direction::Inclined => {},
    }
    assert(list@ =~= old(list)@ + direction_constraints(axis, direction));
}

fn push_incidences(list: &mut Vec<Constraint>, plane: usize, nodes: &Vec<usize>, ids: &Vec<u32>)
    requires
        forall|k: int| 0 <= k < nodes@.len() ==> #[trigger] nodes@[k] < ids@.len(),
    ensures
        final(list)@ == old(list)@ + incidence_constraints(plane, nodes@, ids@),
{
    let ghost before = list@;
    let mut k: usize = 0;
    while k < nodes.len()
        invariant
            k <= nodes@.len(),
            forall|m: int| 0 <= m < nodes@.len() ==> #[trigger] nodes@[m] < ids@.len(),
            list@ =~= before + incidence_constraints(plane, nodes@, ids@).take(k as int),
        decreases nodes@.len() - k,
    {
        let node_id = ids[nodes[k]];
        list.push(Constraint { origin: ConstraintOrigin::PlaneIncidence { plane, node_id }, place: k });
        k += 1;
    }
    assert(incidence_constraints(plane, nodes@, ids@).take(k as int) =~= incidence_constraints(plane, nodes@, ids@));
}

/// The equations of a solve: those of the axes in their order, then those of the
/// supports.
pub fn constraints(prepared: &Prepared, directions: &Vec<Direction>) -> (r: Vec<Constraint>)
    requires
        nodes_indexed(*prepared),
        directions@.len() == prepared.axes@.len(),
    ensures
        r@ == axis_constraints(
            prepared.axes@,
            directions@,
            prepared.node_ids@,
            prepared.axes@.len() as int,
        ) + surface_constraints(prepared.surfaces@, prepared.node_ids@, prepared.surfaces@.len() as int),
{
    let mut list: Vec<Constraint> = Vec::new();
    let mut a: usize = 0;
    while a < prepared.axes.len()
        invariant
            a <= prepared.axes@.len(),
            nodes_indexed(*prepared),
            directions@.len() == prepared.axes@.len(),
            list@ =~= axis_constraints(prepared.axes@, directions@, prepared.node_ids@, a as int),
        decreases prepared.axes@.len() - a,
    {
        push_anchors(&mut list, a, &prepared.axes[a].anchors, &prepared.node_ids);
        push_directions(&mut list, a, directions[a]);
        a += 1;
    }
    let ghost of_axes = list@;
    let mut p: usize = 0;
    while p < prepared.surfaces.len()
        invariant
            p <= prepared.surfaces@.len(),
            nodes_indexed(*prepared),
            list@ =~= of_axes + surface_constraints(prepared.surfaces@, prepared.node_ids@, p as int),
        decreases prepared.surfaces@.len() - p,
    {
        push_incidences(&mut list, p, &prepared.surfaces[p].nodes, &prepared.node_ids);
        p += 1;
    }
    list
}

/// The equations whose residual exceeds the tolerance, in their order.
pub open spec fn violating(residuals: Seq<Scalar>, tolerance: Scalar, upto: int) -> Seq<usize>
    decreases upto,
{
    if upto <= 0 {
        Seq::empty()
    } else if tolerance.lt(residuals[upto - 1]) {
        violating(residuals, tolerance, upto - 1).push((upto - 1) as usize)
    } else {
        violating(residuals, tolerance, upto - 1)
    }
}

pub open spec fn steepness(keys: Seq<i128>, residuals: Seq<Scalar>, listed: Seq<usize>) -> bool {
    &&& keys.len() == listed.len()
    &&& forall|k: int| 0 <= k < listed.len() ==> #[trigger] keys[k] == -residuals[listed[k] as int].total_rank()
}

/// The listed equations with the greatest residuals, the greatest first and equal ones
/// in their order, but no more than there is room for.
pub open spec fn worst_of(
    failures: Seq<ConstraintFailure>,
    origins: Seq<ConstraintOrigin>,
    residuals: Seq<Scalar>,
    listed: Seq<usize>,
    room: int,
) -> bool {
    exists|keys: Seq<i128>, order: Seq<usize>| #[trigger]
        steepness(keys, residuals, listed) && #[trigger] stable_order(keys, order) && failures =~= Seq::new(
            if listed.len() <= room { listed.len() } else { room as nat },
            |k: int|
                ConstraintFailure {
                    origin: origins[listed[order[k] as int] as int],
                    residual: residuals[listed[order[k] as int] as int],
                },
        )
}

proof fn violating_within(residuals: Seq<Scalar>, tolerance: Scalar, upto: int)
    requires
        0 <= upto <= residuals.len() <= usize::MAX,
    ensures
        violating(residuals, tolerance, upto).len() <= upto,
        forall|k: int|
            0 <= k < violating(residuals, tolerance, upto).len() ==> #[trigger] violating(residuals, tolerance, upto)[k]
                < upto,
    decreases upto,
{
    if upto > 0 {
        violating_within(residuals, tolerance, upto - 1);
    }
}

/// How many equations are not met, and the worst of them.
pub fn worst_failures(
    origins: &Vec<ConstraintOrigin>,
    residuals: &Vec<Scalar>,
    tolerance: &Scalar,
    room: usize,
) -> (r: (usize, Vec<ConstraintFailure>))
    requires
        origins@.len() == residuals@.len(),
    ensures
        r.0 == violating(residuals@, *tolerance, residuals@.len() as int).len(),
        worst_of(
            r.1@,
            origins@,
            residuals@,
            violating(residuals@, *tolerance, residuals@.len() as int),
            room as int,
        ),
{
    let mut listed: Vec<usize> = Vec::new();
    let mut keys: Vec<i128> = Vec::new();
    let mut i: usize = 0;
    while i < residuals.len()
        invariant
            i <= residuals@.len(),
            listed@ == violating(residuals@, *tolerance, i as int),
            steepness(keys@, residuals@, listed@),
        decreases residuals@.len() - i,
    {
        if tolerance.less(&residuals[i]) {
            listed.push(i);
            keys.push(-(residuals[i].total_key() as i128));
        }
        i += 1;
    }
    proof {
        violating_within(residuals@, *tolerance, residuals@.len() as int);
    }
    let order = sorted_indices(&keys);
    let count: usize = if listed.len() <= room { listed.len() } else { room };
    let mut failures: Vec<ConstraintFailure> = Vec::new();
    let mut k: usize = 0;
    while k < count
        invariant
            k <= count <= listed@.len(),
            origins@.len() == residuals@.len(),
            stable_order(keys@, order@),
            keys@.len() == listed@.len(),
            forall|m: int| 0 <= m < listed@.len() ==> #[trigger] listed@[m] < residuals@.len(),
            failures@.len() == k,
            forall|m: int|
                0 <= m < k ==> #[trigger] failures@[m] == (ConstraintFailure {
                    origin: origins@[listed@[order@[m] as int] as int],
                    residual: residuals@[listed@[order@[m] as int] as int],
                }),
        decreases count - k,
    {
        let at: usize = listed[order[k]];
        failures.push(ConstraintFailure { origin: origins[at], residual: residuals[at] });
        k += 1;
    }
    proof {
        assert(steepness(keys@, residuals@, listed@) && stable_order(keys@, order@));
    }
    (listed.len(), failures)
}

/// Every anchor of an axis has an equation for each of the three components, in its place and
/// with its node.
pub proof fn anchors_have_three_equations(axis: usize, anchors: Seq<Anchor>, ids: Seq<u32>, upto: int)
    requires
        0 <= upto <= anchors.len(),
        anchors.len() <= usize::MAX,
    ensures
        anchor_constraints(axis, anchors, ids, upto).len() == 3 * upto,
        forall|k: int, c: int|
            0 <= k < upto && 0 <= c < 3 ==> #[trigger] equation_at(anchor_constraints(axis, anchors, ids, upto), k, c) == (Constraint {
                origin: ConstraintOrigin::AxisAnchor { axis, node_id: ids[anchors[k].node as int], component: c as usize },
                place: k as usize,
            }),
    decreases upto,
{
    if upto > 0 {
        anchors_have_three_equations(axis, anchors, ids, upto - 1);
        let rest = anchor_constraints(axis, anchors, ids, upto - 1);
        let all = anchor_constraints(axis, anchors, ids, upto);
        assert forall|k: int, c: int| 0 <= k < upto && 0 <= c < 3 implies #[trigger] equation_at(all, k, c) == (Constraint {
            origin: ConstraintOrigin::AxisAnchor { axis, node_id: ids[anchors[k].node as int], component: c as usize },
            place: k as usize,
        }) by {
            if k < upto - 1 {
                assert(equation_at(rest, k, c) == equation_at(all, k, c));
            } else {
                assert(c == 0 || c == 1 || c == 2);
            }
        }
    }
}

/// Equation `c` of anchor `k`.
pub open spec fn equation_at(list: Seq<Constraint>, k: int, c: int) -> Constraint {
    list[3 * k + c]
}

/// A vertical axis is held in two directions, a horizontal one in one, an inclined one in none.
pub proof fn directions_hold_axes(axis: usize, direction: Direction)
    ensures
        direction == Direction::Vertical <==> direction_constraints(axis, direction).len() == 2,
        direction == Direction::Horizontal <==> direction_constraints(axis, direction).len() == 1,
        direction == Direction::Inclined <==> direction_constraints(axis, direction).len() == 0,
        forall|k: int|
            0 <= k < direction_constraints(axis, direction).len() ==> (#[trigger] direction_constraints(axis, direction)[k]).origin == (
            ConstraintOrigin::AxisDirection { axis }) && direction_constraints(axis, direction)[k].place == k,
{
}

/// Every node of a support has an equation that puts it on the plane.
pub proof fn support_nodes_have_an_equation(surfaces: Seq<Surface>, ids: Seq<u32>, upto: int, p: int, k: int)
    requires
        0 <= p < upto <= surfaces.len() <= usize::MAX,
        0 <= k < surfaces[p].nodes@.len() <= usize::MAX,
    ensures
        surface_constraints(surfaces, ids, upto).contains(
            Constraint {
                origin: ConstraintOrigin::PlaneIncidence {
                    plane: p as usize,
                    node_id: ids[surfaces[p].nodes@[k] as int],
                },
                place: k as usize,
            },
        ),
    decreases upto,
{
    let wanted = Constraint {
        origin: ConstraintOrigin::PlaneIncidence { plane: p as usize, node_id: ids[surfaces[p].nodes@[k] as int] },
        place: k as usize,
    };
    let rest = surface_constraints(surfaces, ids, upto - 1);
    let all = surface_constraints(surfaces, ids, upto);
    if p < upto - 1 {
        support_nodes_have_an_equation(surfaces, ids, upto - 1, p, k);
        let m = choose|m: int| 0 <= m < rest.len() && rest[m] == wanted;
        assert(all[m] == wanted);
    } else {
        assert(all[rest.len() + k] == wanted);
    }
}

/// An equation is not met exactly when its residual exceeds the tolerance.
pub proof fn unmet_equations_are_listed(residuals: Seq<Scalar>, tolerance: Scalar, upto: int, k: usize)
    requires
        0 <= upto <= residuals.len(),
        upto <= usize::MAX,
    ensures
        violating(residuals, tolerance, upto).contains(k) <==> k < upto && tolerance.lt(residuals[k as int]),
        forall|m: int| 0 <= m < violating(residuals, tolerance, upto).len() ==> #[trigger] violating(residuals, tolerance, upto)[m] < upto,
        violating(residuals, tolerance, upto).no_duplicates(),
    decreases upto,
{
    if upto > 0 {
        unmet_equations_are_listed(residuals, tolerance, upto - 1, k);
        crate::ordering::pushed_contains(violating(residuals, tolerance, upto - 1), (upto - 1) as usize, k);
    }
}

/// The failures that are reported are of unmet equations, the worst first; none that is left out
/// is worse than one that is reported.
pub proof fn worst_failures_come_first(
    failures: Seq<ConstraintFailure>,
    origins: Seq<ConstraintOrigin>,
    residuals: Seq<Scalar>,
    tolerance: Scalar,
    room: int,
    i: int,
    j: int,
)
    requires
        residuals.len() <= usize::MAX,
        room >= 0,
        worst_of(failures, origins, residuals, violating(residuals, tolerance, residuals.len() as int), room),
        0 <= i < j < failures.len(),
    ensures
        failures.len() <= room,
        failures[j].residual.total_rank() <= failures[i].residual.total_rank(),
        tolerance.lt(failures[i].residual),
        exists|e: int| 0 <= e < residuals.len() && failures[i].origin == origins[e] && failures[i].residual == #[trigger] residuals[e],
{
    let listed = violating(residuals, tolerance, residuals.len() as int);
    let (keys, order) = choose|keys: Seq<i128>, order: Seq<usize>| #[trigger]
        steepness(keys, residuals, listed) && #[trigger] stable_order(keys, order) && failures =~= Seq::new(
            if listed.len() <= room { listed.len() } else { room as nat },
            |k: int|
                ConstraintFailure {
                    origin: origins[listed[order[k] as int] as int],
                    residual: residuals[listed[order[k] as int] as int],
                },
        );
    assert(crate::ordering::key_before(keys, order[i], order[j]));
    assert(keys[order[i] as int] == -residuals[listed[order[i] as int] as int].total_rank());
    assert(keys[order[j] as int] == -residuals[listed[order[j] as int] as int].total_rank());
    let e = listed[order[i] as int];
    unmet_equations_are_listed(residuals, tolerance, residuals.len() as int, e);
    assert(listed.contains(e));
    assert(failures[i].residual == residuals[e as int]);
}

/// The equations of axes: for every anchor one in each component, and those of the directions
/// that its axis holds.
pub proof fn axes_have_their_equations(axes: Seq<Axis>, directions: Seq<Direction>, ids: Seq<u32>, upto: int)
    requires
        0 <= upto <= axes.len(),
    ensures
        axis_constraints(axes, directions, ids, upto) == Seq::new(
            upto as nat,
            |a: int| anchor_constraints(a as usize, axes[a].anchors@, ids, axes[a].anchors@.len() as int) + direction_constraints(
                a as usize,
                directions[a],
            ),
        ).flatten(),
    decreases upto,
{
    let part = |a: int|
        anchor_constraints(a as usize, axes[a].anchors@, ids, axes[a].anchors@.len() as int) + direction_constraints(
            a as usize,
            directions[a],
        );
    let parts = Seq::new(upto as nat, part);
    parts.lemma_flatten_and_flatten_alt_are_equivalent();
    if upto > 0 {
        axes_have_their_equations(axes, directions, ids, upto - 1);
        let fewer = Seq::new((upto - 1) as nat, part);
        fewer.lemma_flatten_and_flatten_alt_are_equivalent();
        assert(parts.drop_last() =~= fewer);
        assert(axis_constraints(axes, directions, ids, upto) =~= axis_constraints(axes, directions, ids, upto - 1) + part(upto - 1));
    } else {
        assert(axis_constraints(axes, directions, ids, upto) =~= parts.flatten());
    }
}

} // verus!
