//! Anchors that may slide along their axes in a joint solve: which of them do,
//! which equations they stand in, and which steps of the solve are taken.
use vstd::prelude::*;
use crate::reconstruction::frame::{Axis, ConstraintOrigin};
use crate::scalar::Scalar;

verus! {

/// The parameter of an anchor as an unknown of the solve.
#[derive(Debug)]
pub struct Parameter {
    pub axis: usize,
    pub anchor: usize,
    pub variable: usize,
    /// Equations of the anchor, each with its component.
    pub rows: Vec<(usize, usize)>,
}

/// An anchor of an axis by its node.
pub struct Slot {
    pub axis: usize,
    pub node_id: u32,
}

pub open spec fn is_end(axis: Axis, ids: Seq<u32>, node_id: u32) -> bool {
    ids[axis.endpoints[0] as int] == node_id || ids[axis.endpoints[1] as int] == node_id
}

/// The anchor that an equation lets slide. Ends stay where they are, and short
/// axes preserve their complete source vector and parameters.
pub open spec fn sliding(
    origin: ConstraintOrigin,
    axes: Seq<Axis>,
    ids: Seq<u32>,
    lengths: Seq<Scalar>,
    minimum: Scalar,
) -> Option<Slot> {
    match origin {
        ConstraintOrigin::AxisAnchor { axis, node_id, component } => if is_end(axes[axis as int], ids, node_id)
            || lengths[axis as int].lt(minimum) {
            None
        } else {
            Some(Slot { axis, node_id })
        },
        _ => None,
    }
}

/// The sliding anchors of the first `n` equations, in the order in which they
/// come up.
pub open spec fn slots(
    origins: Seq<ConstraintOrigin>,
    axes: Seq<Axis>,
    ids: Seq<u32>,
    lengths: Seq<Scalar>,
    minimum: Scalar,
    n: int,
) -> Seq<Slot>
    decreases n,
{
    if n <= 0 {
        Seq::empty()
    } else {
        let before = slots(origins, axes, ids, lengths, minimum, n - 1);
        match sliding(origins[n - 1], axes, ids, lengths, minimum) {
            Some(slot) => if before.contains(slot) {
                before
            } else {
                before.push(slot)
            },
            None => before,
        }
    }
}

pub open spec fn component_of(origin: ConstraintOrigin) -> usize {
    match origin {
        ConstraintOrigin::AxisAnchor { axis, node_id, component } => component,
        _ => 0,
    }
}

/// The equations of an anchor among the first `n`, ascending.
pub open spec fn rows_of(
    origins: Seq<ConstraintOrigin>,
    axes: Seq<Axis>,
    ids: Seq<u32>,
    lengths: Seq<Scalar>,
    minimum: Scalar,
    slot: Slot,
    n: int,
) -> Seq<(usize, usize)>
    decreases n,
{
    if n <= 0 {
        Seq::empty()
    } else {
        let before = rows_of(origins, axes, ids, lengths, minimum, slot, n - 1);
        if sliding(origins[n - 1], axes, ids, lengths, minimum) == Some(slot) {
            before.push(((n - 1) as usize, component_of(origins[n - 1])))
        } else {
            before
        }
    }
}

/// The first anchor of an axis at a node.
pub open spec fn first_anchor(axis: Axis, ids: Seq<u32>, node_id: u32, k: int) -> bool {
    &&& 0 <= k < axis.anchors@.len()
    &&& ids[axis.anchors@[k].node as int] == node_id
    &&& forall|j: int| 0 <= j < k ==> ids[(#[trigger] axis.anchors@[j]).node as int] != node_id
}

/// The nodes of an axis are known.
pub open spec fn axis_known(axis: Axis, ids: int) -> bool {
    &&& axis.endpoints[0] < ids
    &&& axis.endpoints[1] < ids
    &&& forall|k: int| 0 <= k < axis.anchors@.len() ==> (#[trigger] axis.anchors@[k]).node < ids
}

/// An equation of an anchor speaks of an axis that has this anchor.
pub open spec fn origin_known(origin: ConstraintOrigin, axes: Seq<Axis>, ids: Seq<u32>) -> bool {
    match origin {
        ConstraintOrigin::AxisAnchor { axis, node_id, component } => axis < axes.len() && exists|k: int|
            0 <= k < axes[axis as int].anchors@.len() && ids[(#[trigger] axes[axis as int].anchors@[k]).node as int]
                == node_id,
        _ => true,
    }
}

/// The unknown of one anchor.
pub open spec fn parameter_for(
    parameter: Parameter,
    origins: Seq<ConstraintOrigin>,
    axes: Seq<Axis>,
    ids: Seq<u32>,
    lengths: Seq<Scalar>,
    minimum: Scalar,
    slot: Slot,
    variable: int,
    n: int,
) -> bool {
    &&& parameter.axis == slot.axis
    &&& first_anchor(axes[slot.axis as int], ids, slot.node_id, parameter.anchor as int)
    &&& parameter.variable == variable
    &&& parameter.rows@ == rows_of(origins, axes, ids, lengths, minimum, slot, n)
}

/// The unknowns of the first `n` equations.
pub open spec fn parameters_of(
    list: Seq<Parameter>,
    origins: Seq<ConstraintOrigin>,
    axes: Seq<Axis>,
    ids: Seq<u32>,
    lengths: Seq<Scalar>,
    minimum: Scalar,
    first: int,
    n: int,
) -> bool {
    &&& list.len() == slots(origins, axes, ids, lengths, minimum, n).len()
    &&& forall|i: int|
        0 <= i < list.len() ==> parameter_for(
            #[trigger] list[i],
            origins,
            axes,
            ids,
            lengths,
            minimum,
            slots(origins, axes, ids, lengths, minimum, n)[i],
            first + i,
            n,
        )
}

proof fn slots_grow(
    origins: Seq<ConstraintOrigin>,
    axes: Seq<Axis>,
    ids: Seq<u32>,
    lengths: Seq<Scalar>,
    minimum: Scalar,
    n: int,
)
    requires
        n >= 0,
    ensures
        slots(origins, axes, ids, lengths, minimum, n).len() <= n,
        slots(origins, axes, ids, lengths, minimum, n).no_duplicates(),
    decreases n,
{
    if n > 0 {
        slots_grow(origins, axes, ids, lengths, minimum, n - 1);
    }
}

/// Every slot comes from an equation.
proof fn slot_has_origin(
    origins: Seq<ConstraintOrigin>,
    axes: Seq<Axis>,
    ids: Seq<u32>,
    lengths: Seq<Scalar>,
    minimum: Scalar,
    n: int,
    slot: Slot,
)
    requires
        0 <= n <= origins.len(),
    ensures
        slots(origins, axes, ids, lengths, minimum, n).contains(slot) <==> exists|k: int|
            0 <= k < n && sliding(#[trigger] origins[k], axes, ids, lengths, minimum) == Some(slot),
    decreases n,
{
    if n > 0 {
        slot_has_origin(origins, axes, ids, lengths, minimum, n - 1, slot);
        let before = slots(origins, axes, ids, lengths, minimum, n - 1);
        let after = slots(origins, axes, ids, lengths, minimum, n);
        if before.contains(slot) {
            let i = choose|i: int| 0 <= i < before.len() && before[i] == slot;
            assert(after[i] == slot);
        }
        if sliding(origins[n - 1], axes, ids, lengths, minimum) == Some(slot) && !before.contains(slot) {
            assert(after[before.len() as int] == slot);
        }
        if after.contains(slot) && !before.contains(slot) {
            let i = choose|i: int| 0 <= i < after.len() && after[i] == slot;
            if i < before.len() {
                assert(before[i] == slot);
            }
            assert(sliding(origins[n - 1], axes, ids, lengths, minimum) == Some(slot));
        }
    }
}

/// An anchor that did not come up yet has no equations.
proof fn rows_of_new_slot(
    origins: Seq<ConstraintOrigin>,
    axes: Seq<Axis>,
    ids: Seq<u32>,
    lengths: Seq<Scalar>,
    minimum: Scalar,
    slot: Slot,
    n: int,
)
    requires
        0 <= n <= origins.len(),
        !slots(origins, axes, ids, lengths, minimum, n).contains(slot),
    ensures
        rows_of(origins, axes, ids, lengths, minimum, slot, n).len() == 0,
    decreases n,
{
    if n > 0 {
        slot_has_origin(origins, axes, ids, lengths, minimum, n, slot);
        slot_has_origin(origins, axes, ids, lengths, minimum, n - 1, slot);
        rows_of_new_slot(origins, axes, ids, lengths, minimum, slot, n - 1);
    }
}

fn find_anchor(axis: &Axis, ids: &Vec<u32>, node_id: u32) -> (r: usize)
    requires
        axis_known(*axis, ids@.len() as int),
        exists|k: int| 0 <= k < axis.anchors@.len() && ids@[(#[trigger] axis.anchors@[k]).node as int] == node_id,
    ensures
        first_anchor(*axis, ids@, node_id, r as int),
{
    let count: usize = axis.anchors.len();
    let mut k: usize = 0;
    while ids[axis.anchors[k].node] != node_id
        invariant
            axis_known(*axis, ids@.len() as int),
            k < count,
            count == axis.anchors@.len(),
            exists|j: int|
                k <= j < axis.anchors@.len() && ids@[(#[trigger] axis.anchors@[j]).node as int] == node_id,
            forall|j: int| 0 <= j < k ==> ids@[(#[trigger] axis.anchors@[j]).node as int] != node_id,
        decreases axis.anchors@.len() - k,
    {
        k += 1;
    }
    k
}

/// Makes the anchors that may slide unknowns of the solve. New unknowns are
/// numbered from `first` on.
#[verifier::loop_isolation(false)]
#[verifier::rlimit(40)]
pub fn parameters(
    origins: &Vec<ConstraintOrigin>,
    axes: &Vec<Axis>,
    ids: &Vec<u32>,
    lengths: &Vec<Scalar>,
    minimum: &Scalar,
    first: usize,
) -> (list: Vec<Parameter>)
    requires
        lengths@.len() == axes@.len(),
        first + origins@.len() <= usize::MAX,
        forall|a: int| 0 <= a < axes@.len() ==> axis_known(#[trigger] axes@[a], ids@.len() as int),
        forall|k: int| 0 <= k < origins@.len() ==> origin_known(#[trigger] origins@[k], axes@, ids@),
    ensures
        parameters_of(
            list@,
            origins@,
            axes@,
            ids@,
            lengths@,
            *minimum,
            first as int,
            origins@.len() as int,
        ),
{
    let mut list: Vec<Parameter> = Vec::new();
    let mut known: Vec<Slot> = Vec::new();
    let mut row: usize = 0;
    while row < origins.len()
        invariant
            row <= origins@.len(),
            known@ == slots(origins@, axes@, ids@, lengths@, *minimum, row as int),
            parameters_of(list@, origins@, axes@, ids@, lengths@, *minimum, first as int, row as int),
        decreases origins@.len() - row,
    {
        proof {
            slots_grow(origins@, axes@, ids@, lengths@, *minimum, row as int);
            assert(origin_known(origins@[row as int], axes@, ids@));
        }
        let ghost before = list@;
        let ghost old_known = known@;
        match origins[row] {
            ConstraintOrigin::AxisAnchor { axis, node_id, component } => {
                assert(axis_known(axes@[axis as int], ids@.len() as int));
                let ends = axes[axis].endpoints;
                if ids[ends[0]] != node_id && ids[ends[1]] != node_id && !lengths[axis].less(minimum) {
                    let ghost slot = Slot { axis, node_id };
                    assert(sliding(origins@[row as int], axes@, ids@, lengths@, *minimum) == Some(slot));
                    let mut i: usize = 0;
                    while i < known.len() && !(known[i].axis == axis && known[i].node_id == node_id)
                        invariant
                            i <= known@.len(),
                            forall|k: int| 0 <= k < i ==> #[trigger] known@[k] != slot,
                        decreases known@.len() - i,
                    {
                        i += 1;
                    }
                    if i == known.len() {
                        assert(!known@.contains(slot));
                        proof {
                            rows_of_new_slot(origins@, axes@, ids@, lengths@, *minimum, slot, row as int);
                        }
                        let anchor = find_anchor(&axes[axis], ids, node_id);
                        list.push(Parameter { axis, anchor, variable: first + i, rows: Vec::new() });
                        known.push(Slot { axis, node_id });
                    } else {
                        assert(known@[i as int] == slot);
                        assert(known@.contains(slot));
                    }
                    let ghost between = list@;
                    list[i].rows.push((row, component));
                    proof {
                        let after = slots(origins@, axes@, ids@, lengths@, *minimum, row + 1);
                        assert(after == known@);
                        assert(known@[i as int] == slot);
                        assert forall|k: int| 0 <= k < list@.len() implies parameter_for(
                            #[trigger] list@[k],
                            origins@,
                            axes@,
                            ids@,
                            lengths@,
                            *minimum,
                            after[k],
                            first + k,
                            row + 1,
                        ) by {
                            let rows = rows_of(origins@, axes@, ids@, lengths@, *minimum, after[k], row as int);
                            assert(rows_of(origins@, axes@, ids@, lengths@, *minimum, after[k], row + 1) == if after[k]
                                == slot {
                                rows.push((row, component))
                            } else {
                                rows
                            });
                            if k != i {
                                assert(k < before.len());
                                assert(list@[k] == before[k]);
                                assert(parameter_for(
                                    before[k],
                                    origins@,
                                    axes@,
                                    ids@,
                                    lengths@,
                                    *minimum,
                                    old_known[k],
                                    first + k,
                                    row as int,
                                ));
                                slots_grow(origins@, axes@, ids@, lengths@, *minimum, row + 1);
                                assert(after[k] != after[i as int]);
                            } else {
                                assert(list@[k].rows@ == between[k].rows@.push((row, component)));
                                assert(after[k] == slot);
                                if k == before.len() {
                                    assert(between[k].rows@ =~= rows);
                                }
                            }
                            if k == i && k < before.len() {
                                assert(between[k] == before[k]);
                                assert(parameter_for(
                                    before[k],
                                    origins@,
                                    axes@,
                                    ids@,
                                    lengths@,
                                    *minimum,
                                    old_known[k],
                                    first + k,
                                    row as int,
                                ));
                            }
                        }
                    }
                } else {
                    assert(sliding(origins@[row as int], axes@, ids@, lengths@, *minimum) is None);
                }
            },
            _ => {
                assert(sliding(origins@[row as int], axes@, ids@, lengths@, *minimum) is None);
            },
        }
        proof {
            if sliding(origins@[row as int], axes@, ids@, lengths@, *minimum) is None {
                let after = slots(origins@, axes@, ids@, lengths@, *minimum, row + 1);
                assert(after == known@);
                assert forall|k: int| 0 <= k < list@.len() implies parameter_for(
                    #[trigger] list@[k],
                    origins@,
                    axes@,
                    ids@,
                    lengths@,
                    *minimum,
                    after[k],
                    first + k,
                    row + 1,
                ) by {
                    assert(parameter_for(
                        before[k],
                        origins@,
                        axes@,
                        ids@,
                        lengths@,
                        *minimum,
                        old_known[k],
                        first + k,
                        row as int,
                    ));
                }
            }
        }
        row += 1;
    }
    list
}

/// Neither the ends of an axis nor the anchors of a short axis slide.
pub proof fn fixed_anchors_do_not_slide(
    list: Seq<Parameter>,
    origins: Seq<ConstraintOrigin>,
    axes: Seq<Axis>,
    ids: Seq<u32>,
    lengths: Seq<Scalar>,
    minimum: Scalar,
    first: int,
)
    requires
        parameters_of(list, origins, axes, ids, lengths, minimum, first, origins.len() as int),
    ensures
        forall|i: int|
            0 <= i < list.len() ==> {
                let axis = axes[(#[trigger] list[i]).axis as int];
                !lengths[list[i].axis as int].lt(minimum) && !is_end(
                    axis,
                    ids,
                    ids[axis.anchors@[list[i].anchor as int].node as int],
                )
            },
{
    let found = slots(origins, axes, ids, lengths, minimum, origins.len() as int);
    assert forall|i: int| 0 <= i < list.len() implies {
        let axis = axes[(#[trigger] list[i]).axis as int];
        !lengths[list[i].axis as int].lt(minimum) && !is_end(
            axis,
            ids,
            ids[axis.anchors@[list[i].anchor as int].node as int],
        )
    } by {
        assert(found.contains(found[i]));
        slot_has_origin(origins, axes, ids, lengths, minimum, origins.len() as int, found[i]);
    }
}

/// A trial counts where it is a number and costs less than what there is.
pub open spec fn better(trial: Option<Scalar>, cost: Scalar) -> bool {
    trial matches Some(value) && value.lt(cost)
}

/// The first trial of a step that is better, from the whole step to ever smaller
/// parts of it. A trial that is no number has no cost.
pub fn first_better(trials: &Vec<Option<Scalar>>, cost: &Scalar) -> (r: Option<usize>)
    ensures
        match r {
            Some(k) => k < trials@.len() && better(trials@[k as int], *cost) && forall|j: int|
                0 <= j < k ==> !better(#[trigger] trials@[j], *cost),
            None => forall|j: int| 0 <= j < trials@.len() ==> !better(#[trigger] trials@[j], *cost),
        },
{
    let mut k: usize = 0;
    while k < trials.len()
        invariant
            k <= trials@.len(),
            forall|j: int| 0 <= j < k ==> !better(#[trigger] trials@[j], *cost),
        decreases trials@.len() - k,
    {
        if let Some(value) = trials[k] {
            if value.less(cost) {
                return Some(k);
            }
        }
        k += 1;
    }
    None
}

/// Where an anchor lies after the first `n` unknowns were read back.
pub open spec fn settled(
    axes: Seq<Axis>,
    list: Seq<Parameter>,
    values: Seq<Scalar>,
    a: int,
    k: int,
    n: int,
) -> Scalar
    decreases n,
{
    if n <= 0 {
        axes[a].anchors@[k].t
    } else if list[n - 1].axis == a && list[n - 1].anchor == k {
        values[n - 1]
    } else {
        settled(axes, list, values, a, k, n - 1)
    }
}

pub open spec fn settled_as(
    table: Seq<Vec<Scalar>>,
    axes: Seq<Axis>,
    list: Seq<Parameter>,
    values: Seq<Scalar>,
    n: int,
) -> bool {
    &&& table.len() == axes.len()
    &&& forall|a: int| 0 <= a < table.len() ==> (#[trigger] table[a])@.len() == axes[a].anchors@.len()
    &&& forall|a: int, k: int|
        0 <= a < table.len() && 0 <= k < table[a]@.len() ==> #[trigger] table[a]@[k] == settled(
            axes,
            list,
            values,
            a,
            k,
            n,
        )
}

/// The parameters of all anchors: those that slid by the value of their unknown,
/// the others as they were.
#[verifier::loop_isolation(false)]
pub fn read_back(axes: &Vec<Axis>, list: &Vec<Parameter>, values: &Vec<Scalar>) -> (table: Vec<Vec<Scalar>>)
    requires
        values@.len() == list@.len(),
        forall|p: int|
            0 <= p < list@.len() ==> (#[trigger] list@[p]).axis < axes@.len() && list@[p].anchor
                < axes@[list@[p].axis as int].anchors@.len(),
    ensures
        settled_as(table@, axes@, list@, values@, list@.len() as int),
{
    let mut table: Vec<Vec<Scalar>> = Vec::new();
    let mut a: usize = 0;
    while a < axes.len()
        invariant
            a <= axes@.len(),
            table@.len() == a,
            forall|i: int| 0 <= i < a ==> (#[trigger] table@[i])@.len() == axes@[i].anchors@.len(),
            forall|i: int, k: int|
                0 <= i < a && 0 <= k < table@[i]@.len() ==> #[trigger] table@[i]@[k] == axes@[i].anchors@[k].t,
        decreases axes@.len() - a,
    {
        let mut row: Vec<Scalar> = Vec::new();
        let mut k: usize = 0;
        while k < axes[a].anchors.len()
            invariant
                a < axes@.len(),
                k <= axes@[a as int].anchors@.len(),
                row@.len() == k,
                forall|j: int| 0 <= j < k ==> #[trigger] row@[j] == axes@[a as int].anchors@[j].t,
            decreases axes@[a as int].anchors@.len() - k,
        {
            row.push(axes[a].anchors[k].t);
            k += 1;
        }
        table.push(row);
        a += 1;
    }
    let mut p: usize = 0;
    while p < list.len()
        invariant
            p <= list@.len(),
            settled_as(table@, axes@, list@, values@, p as int),
        decreases list@.len() - p,
    {
        let ghost before = table@;
        let axis: usize = list[p].axis;
        let anchor: usize = list[p].anchor;
        assert(list@[p as int].axis == axis);
        table[axis].set(anchor, values[p]);
        proof {
            assert forall|i: int, k: int| 0 <= i < table@.len() && 0 <= k < table@[i]@.len() implies #[trigger] table@[i]@[k]
                == settled(axes@, list@, values@, i, k, p + 1) by {
                assert(i != axis ==> table@[i] == before[i]);
                assert(before[i]@.len() == axes@[i].anchors@.len());
                assert(before[i]@[k] == settled(axes@, list@, values@, i, k, p as int));
            }
        }
        p += 1;
    }
    table
}

/// An equation lets its anchor slide exactly when it is one of an anchor inside an axis that is
/// long enough.
pub proof fn inner_anchors_of_long_axes_slide(
    origin: ConstraintOrigin,
    axes: Seq<Axis>,
    ids: Seq<u32>,
    lengths: Seq<Scalar>,
    minimum: Scalar,
)
    ensures
        sliding(origin, axes, ids, lengths, minimum) is Some <==> (origin matches ConstraintOrigin::AxisAnchor {
            axis,
            node_id,
            component,
        } && ids[axes[axis as int].endpoints[0] as int] != node_id && ids[axes[axis as int].endpoints[1] as int] != node_id
            && !lengths[axis as int].lt(minimum)),
        origin matches ConstraintOrigin::AxisAnchor { axis, node_id, component } ==> sliding(origin, axes, ids, lengths, minimum) is Some
            ==> sliding(origin, axes, ids, lengths, minimum)->0.axis == axis && sliding(origin, axes, ids, lengths, minimum)->0.node_id
            == node_id,
{
}

/// Anchors that slide are unknowns once each.
pub proof fn sliding_anchors_are_unknown_once(
    origins: Seq<ConstraintOrigin>,
    axes: Seq<Axis>,
    ids: Seq<u32>,
    lengths: Seq<Scalar>,
    minimum: Scalar,
    n: int,
    slot: Slot,
)
    requires
        0 <= n <= origins.len(),
    ensures
        slots(origins, axes, ids, lengths, minimum, n).contains(slot) <==> exists|k: int|
            0 <= k < n && sliding(#[trigger] origins[k], axes, ids, lengths, minimum) == Some(slot),
        slots(origins, axes, ids, lengths, minimum, n).no_duplicates(),
    decreases n,
{
    if n > 0 {
        sliding_anchors_are_unknown_once(origins, axes, ids, lengths, minimum, n - 1, slot);
        let before = slots(origins, axes, ids, lengths, minimum, n - 1);
        match sliding(origins[n - 1], axes, ids, lengths, minimum) {
            Some(found) => {
                crate::ordering::pushed_contains(before, found, slot);
            },
            None => {},
        }
    }
}

/// An equation stands in the list of an anchor, with its component, exactly when it lets that
/// anchor slide.
pub proof fn anchors_know_their_equations(
    origins: Seq<ConstraintOrigin>,
    axes: Seq<Axis>,
    ids: Seq<u32>,
    lengths: Seq<Scalar>,
    minimum: Scalar,
    slot: Slot,
    n: int,
    row: usize,
    component: usize,
)
    requires
        0 <= n <= origins.len() <= usize::MAX,
    ensures
        rows_of(origins, axes, ids, lengths, minimum, slot, n).contains((row, component)) <==> row < n && sliding(
            origins[row as int],
            axes,
            ids,
            lengths,
            minimum,
        ) == Some(slot) && (origins[row as int] matches ConstraintOrigin::AxisAnchor { axis, node_id, component: own } && own
            == component),
    decreases n,
{
    if n > 0 {
        anchors_know_their_equations(origins, axes, ids, lengths, minimum, slot, n - 1, row, component);
        crate::ordering::pushed_contains(
            rows_of(origins, axes, ids, lengths, minimum, slot, n - 1),
            ((n - 1) as usize, component_of(origins[n - 1])),
            (row, component),
        );
    }
}

/// An anchor that is no unknown stays where it was; one that is lies where its unknown says.
pub proof fn anchors_lie_where_they_slid(axes: Seq<Axis>, list: Seq<Parameter>, values: Seq<Scalar>, a: int, k: int, n: int)
    requires
        0 <= n <= list.len(),
    ensures
        (forall|p: int| 0 <= p < n ==> !((#[trigger] list[p]).axis == a && list[p].anchor == k)) ==> settled(axes, list, values, a, k, n)
            == axes[a].anchors@[k].t,
        forall|p: int|
            0 <= p < n && (#[trigger] list[p]).axis == a && list[p].anchor == k && (forall|q: int|
                p < q < n ==> !((#[trigger] list[q]).axis == a && list[q].anchor == k)) ==> settled(axes, list, values, a, k, n)
                == values[p],
    decreases n,
{
    if n > 0 {
        anchors_lie_where_they_slid(axes, list, values, a, k, n - 1);
    }
}

/// An unknown is that of its slot: the first anchor of the axis at the node, its own variable,
/// and the equations that speak of it.
pub proof fn unknowns_are_of_their_slot(
    parameter: Parameter,
    origins: Seq<ConstraintOrigin>,
    axes: Seq<Axis>,
    ids: Seq<u32>,
    lengths: Seq<Scalar>,
    minimum: Scalar,
    slot: Slot,
    variable: int,
    n: int,
)
    requires
        parameter_for(parameter, origins, axes, ids, lengths, minimum, slot, variable, n),
    ensures
        parameter.axis == slot.axis,
        ids[axes[slot.axis as int].anchors@[parameter.anchor as int].node as int] == slot.node_id,
        parameter.variable == variable,
        parameter.rows@ == rows_of(origins, axes, ids, lengths, minimum, slot, n),
{
}

/// Every anchor of every axis is read back.
pub proof fn all_anchors_are_read_back(table: Seq<Vec<Scalar>>, axes: Seq<Axis>, list: Seq<Parameter>, values: Seq<Scalar>, n: int, a: int, k: int)
    requires
        settled_as(table, axes, list, values, n),
        0 <= a < axes.len(),
        0 <= k < axes[a].anchors@.len(),
    ensures
        table.len() == axes.len(),
        table[a]@.len() == axes[a].anchors@.len(),
        table[a]@[k] == settled(axes, list, values, a, k, n),
{
}

} // verus!
