//! Proposals of planes fitted to the bars that meet them. Whether they are taken is
//! decided elsewhere.
use vstd::prelude::*;
use crate::ordering::{lists_index, sorted_indices, stable_order};
use crate::scalar::Scalar;

verus! {

/// 1e-14
pub const LEAST_GAIN: u64 = 0x3d06_849b_86a1_2b9b;

/// 1e-9
pub const LEAST_TURN: u64 = 0x3e11_2e0b_e826_d695;

/// The first group whose first panel lies in the same plane.
pub open spec fn joins(groups: Seq<Vec<usize>>, same: Seq<bool>, g: int) -> bool {
    &&& 0 <= g < groups.len()
    &&& same[g]
    &&& forall|h: int| 0 <= h < g ==> !#[trigger] same[h]
}

pub open spec fn joins_none(same: Seq<bool>) -> bool {
    forall|h: int| 0 <= h < same.len() ==> !#[trigger] same[h]
}

/// What a panel does to the groups of coplanar panels.
pub open spec fn grouped(before: Seq<Vec<usize>>, after: Seq<Vec<usize>>, panel: usize, same: Seq<bool>) -> bool {
    if joins_none(same) {
        &&& after.len() == before.len() + 1
        &&& after.drop_last() == before
        &&& after.last()@ == seq![panel]
    } else {
        exists|g: int| #[trigger]
            joins(before, same, g) && after.len() == before.len() && after[g]@ == before[g]@.push(panel) && forall|h:
                int| 0 <= h < before.len() && h != g ==> (#[trigger] after[h]) == before[h]
    }
}

/// Puts a panel with the panels of its plane. `same` says for each group whether its
/// first panel lies in that plane.
pub fn group_panel(groups: &mut Vec<Vec<usize>>, panel: usize, same: &Vec<bool>)
    requires
        same@.len() == old(groups)@.len(),
    ensures
        grouped(old(groups)@, final(groups)@, panel, same@),
{
    let mut g: usize = 0;
    while g < groups.len()
        invariant
            g <= groups@.len(),
            groups@ == old(groups)@,
            same@.len() == groups@.len(),
            forall|h: int| 0 <= h < g ==> !#[trigger] same@[h],
        decreases groups@.len() - g,
    {
        if same[g] {
            let mut group = groups.remove(g);
            group.push(panel);
            groups.insert(g, group);
            proof {
                assert(same@[g as int]);
                assert(joins(old(groups)@, same@, g as int));
            }
            return;
        }
        g += 1;
    }
    let mut group: Vec<usize> = Vec::new();
    group.push(panel);
    assert(group@ =~= seq![panel]);
    groups.push(group);
    assert(groups@.drop_last() =~= old(groups)@);
}

/// What is measured of a fitted plane.
#[derive(Debug)]
pub struct FitMeasure {
    /// Cosine of the turn, and the least allowed.
    pub turn: Scalar,
    pub least_turn: Scalar,
    /// How much closer the samples are.
    pub gain: Scalar,
    /// Distance between the normals.
    pub change: Scalar,
    /// Distances of the points of all panels of the group to the new plane.
    pub residuals: Vec<Scalar>,
    pub tolerance: Scalar,
}

pub open spec fn fit_taken(measure: FitMeasure) -> bool {
    &&& !measure.turn.lt(measure.least_turn)
    &&& !measure.gain.lt(Scalar { bits: LEAST_GAIN })
    &&& !measure.change.lt(Scalar { bits: LEAST_TURN })
    &&& forall|k: int|
        0 <= k < measure.residuals@.len() ==> !measure.tolerance.lt(#[trigger] measure.residuals@[k])
}

/// Whether a fitted plane is proposed: a small turn that brings the samples closer
/// and keeps every point of the panels within the tolerance.
pub fn takes_fit(measure: &FitMeasure) -> (r: bool)
    ensures
        r == fit_taken(*measure),
{
    if measure.turn.less(&measure.least_turn) || measure.gain.less(&Scalar { bits: LEAST_GAIN }) || measure.change.less(
        &Scalar { bits: LEAST_TURN },
    ) {
        return false;
    }
    let mut k: usize = 0;
    while k < measure.residuals.len()
        invariant
            k <= measure.residuals@.len(),
            forall|m: int| 0 <= m < k ==> !measure.tolerance.lt(#[trigger] measure.residuals@[m]),
        decreases measure.residuals@.len() - k,
    {
        if measure.tolerance.less(&measure.residuals[k]) {
            assert(measure.tolerance.lt(measure.residuals@[k as int]));
            return false;
        }
        k += 1;
    }
    true
}

pub open spec fn gain_keys(keys: Seq<i128>, gains: Seq<Scalar>) -> bool {
    &&& keys.len() == gains.len()
    &&& forall|k: int| 0 <= k < gains.len() ==> #[trigger] keys[k] == -gains[k].total_rank()
}

/// Up to six proposals, the greatest gain first.
pub open spec fn best_six(chosen: Seq<usize>, gains: Seq<Scalar>) -> bool {
    exists|keys: Seq<i128>, order: Seq<usize>|
        gain_keys(keys, gains) && #[trigger] stable_order(keys, order) && chosen == order.take(
            if order.len() < 6 {
                order.len() as int
            } else {
                6
            },
        )
}

#[verifier::loop_isolation(false)]
pub fn rank_proposals(gains: &Vec<Scalar>) -> (r: Vec<usize>)
    ensures
        best_six(r@, gains@),
{
    let mut keys: Vec<i128> = Vec::new();
    let mut k: usize = 0;
    while k < gains.len()
        invariant
            k <= gains@.len(),
            keys@.len() == k,
            forall|m: int| 0 <= m < k ==> #[trigger] keys@[m] == -gains@[m].total_rank(),
        decreases gains@.len() - k,
    {
        keys.push(-(gains[k].total_key() as i128));
        k += 1;
    }
    let order = sorted_indices(&keys);
    let count: usize = if order.len() < 6 {
        order.len()
    } else {
        6
    };
    let mut r: Vec<usize> = Vec::new();
    let mut k: usize = 0;
    while k < count
        invariant
            k <= count <= order@.len(),
            r@ =~= order@.take(k as int),
        decreases count - k,
    {
        r.push(order[k]);
        k += 1;
    }
    assert(gain_keys(keys@, gains@) && stable_order(keys@, order@));
    r
}

/// A group with a panel that a trial does not take.
pub open spec fn troubled(group: Seq<usize>, affected: Seq<usize>) -> bool {
    exists|k: int| 0 <= k < group.len() && affected.contains(#[trigger] group[k])
}

pub open spec fn in_troubled(groups: Seq<Vec<usize>>, affected: Seq<usize>, panel: usize, upto: int) -> bool {
    exists|g: int| 0 <= g < upto && troubled((#[trigger] groups[g])@, affected) && groups[g]@.contains(panel)
}

pub open spec fn still_active(active: Seq<usize>, groups: Seq<Vec<usize>>, affected: Seq<usize>, upto: int) -> Seq<
    usize,
>
    decreases upto,
{
    if upto <= 0 {
        Seq::empty()
    } else {
        let rest = still_active(active, groups, affected, upto - 1);
        if in_troubled(groups, affected, active[upto - 1], groups.len() as int) {
            rest
        } else {
            rest.push(active[upto - 1])
        }
    }
}

fn is_troubled(group: &Vec<usize>, affected: &Vec<usize>) -> (r: bool)
    ensures
        r == troubled(group@, affected@),
{
    let mut k: usize = 0;
    while k < group.len()
        invariant
            k <= group@.len(),
            forall|m: int| 0 <= m < k ==> !affected@.contains(#[trigger] group@[m]),
        decreases group@.len() - k,
    {
        if lists_index(affected, group[k]) {
            assert(affected@.contains(group@[k as int]));
            return true;
        }
        k += 1;
    }
    false
}

fn lies_in_troubled(groups: &Vec<Vec<usize>>, affected: &Vec<usize>, panel: usize) -> (r: bool)
    ensures
        r == in_troubled(groups@, affected@, panel, groups@.len() as int),
{
    let mut g: usize = 0;
    while g < groups.len()
        invariant
            g <= groups@.len(),
            forall|h: int| 0 <= h < g ==> !(troubled((#[trigger] groups@[h])@, affected@) && groups@[h]@.contains(panel)),
        decreases groups@.len() - g,
    {
        if lists_index(&groups[g], panel) && is_troubled(&groups[g], affected) {
            assert(troubled(groups@[g as int]@, affected@) && groups@[g as int]@.contains(panel));
            return true;
        }
        g += 1;
    }
    false
}

/// Withdraws the proposals of whole groups where a trial fails. What is left is tried
/// again, unless nothing was withdrawn.
pub fn withdraw(active: &Vec<usize>, groups: &Vec<Vec<usize>>, affected: &Vec<usize>) -> (r: Vec<usize>)
    ensures
        r@ == still_active(active@, groups@, affected@, active@.len() as int),
        r@.len() <= active@.len(),
{
    let mut r: Vec<usize> = Vec::new();
    let mut k: usize = 0;
    while k < active.len()
        invariant
            k <= active@.len(),
            r@.len() <= k,
            r@ == still_active(active@, groups@, affected@, k as int),
        decreases active@.len() - k,
    {
        if !lies_in_troubled(groups, affected, active[k]) {
            r.push(active[k]);
        }
        k += 1;
    }
    r
}

/// A fitted plane is proposed only for a small turn that gains something, with every point of
/// its panels within the tolerance.
pub proof fn proposed_planes_stay_close(measure: FitMeasure)
    ensures
        fit_taken(measure) ==> {
            &&& !measure.turn.lt(measure.least_turn)
            &&& !measure.gain.lt(Scalar { bits: 0x3d06_849b_86a1_2b9b })
            &&& !measure.change.lt(Scalar { bits: 0x3e11_2e0b_e826_d695 })
            &&& forall|k: int| 0 <= k < measure.residuals@.len() ==> !measure.tolerance.lt(#[trigger] measure.residuals@[k])
        },
        measure.least_turn.le(measure.turn) && (Scalar { bits: 0x3d06_849b_86a1_2b9b }).le(measure.gain) && (Scalar {
            bits: 0x3e11_2e0b_e826_d695,
        }).le(measure.change) && (forall|k: int|
            0 <= k < measure.residuals@.len() ==> (#[trigger] measure.residuals@[k]).le(measure.tolerance)) ==> fit_taken(measure),
{
}

/// Proposals come by what they gain, the most first; there are six at most, and none that was
/// left out gains more than one that was chosen.
pub proof fn best_proposals_are_chosen(chosen: Seq<usize>, gains: Seq<Scalar>, i: int, x: usize)
    requires
        best_six(chosen, gains),
        gains.len() <= usize::MAX,
        0 <= i < chosen.len(),
        x < gains.len(),
    ensures
        chosen.len() <= 6,
        chosen.len() == 6 || chosen.len() == gains.len(),
        chosen[i] < gains.len(),
        forall|j: int| i < j < chosen.len() ==> #[trigger] gains[chosen[j] as int].total_rank() <= gains[chosen[i] as int].total_rank(),
        !chosen.contains(x) ==> gains[x as int].total_rank() <= gains[chosen[i] as int].total_rank(),
{
    let (keys, order) = choose|keys: Seq<i128>, order: Seq<usize>|
        gain_keys(keys, gains) && #[trigger] stable_order(keys, order) && chosen == order.take(
            if order.len() < 6 {
                order.len() as int
            } else {
                6
            },
        );
    assert(chosen[i] == order[i]);
    assert(keys[order[i] as int] == -gains[order[i] as int].total_rank());
    assert forall|j: int| i < j < chosen.len() implies #[trigger] gains[chosen[j] as int].total_rank() <= gains[chosen[i] as int].total_rank() by {
        assert(chosen[j] == order[j]);
        assert(crate::ordering::key_before(keys, order[i], order[j]));
        assert(keys[order[j] as int] == -gains[order[j] as int].total_rank());
    }
    if !chosen.contains(x) {
        assert(order.contains(x));
        let m = choose|m: int| 0 <= m < order.len() && order[m] == x;
        if m < chosen.len() {
            assert(chosen[m] == x);
        }
        assert(crate::ordering::key_before(keys, order[i], order[m]));
        assert(keys[order[m] as int] == -gains[order[m] as int].total_rank());
    }
}

/// A proposal is withdrawn exactly when a group that its panel belongs to has a panel that the
/// trial does not take.
pub proof fn whole_groups_are_withdrawn(
    active: Seq<usize>,
    groups: Seq<Vec<usize>>,
    affected: Seq<usize>,
    upto: int,
    panel: usize,
)
    requires
        0 <= upto <= active.len(),
    ensures
        still_active(active, groups, affected, upto).contains(panel) <==> active.take(upto).contains(panel) && !exists|
            g: int,
            k: int,
        |
            0 <= g < groups.len() && 0 <= k < groups[g]@.len() && affected.contains(#[trigger] groups[g]@[k])
                && groups[g]@.contains(panel),
    decreases upto,
{
    let hit = exists|g: int, k: int|
        0 <= g < groups.len() && 0 <= k < groups[g]@.len() && affected.contains(#[trigger] groups[g]@[k]) && groups[g]@.contains(
            panel,
        );
    assert(in_troubled(groups, affected, panel, groups.len() as int) == hit) by {
        if in_troubled(groups, affected, panel, groups.len() as int) {
            let g = choose|g: int| 0 <= g < groups.len() && troubled((#[trigger] groups[g])@, affected) && groups[g]@.contains(panel);
            let k = choose|k: int| 0 <= k < groups[g]@.len() && affected.contains(#[trigger] groups[g]@[k]);
            assert(affected.contains(groups[g]@[k]));
        }
        if hit {
            let (g, k) = choose|g: int, k: int|
                0 <= g < groups.len() && 0 <= k < groups[g]@.len() && affected.contains(#[trigger] groups[g]@[k])
                    && groups[g]@.contains(panel);
            assert(troubled(groups[g]@, affected));
        }
    }
    if upto > 0 {
        whole_groups_are_withdrawn(active, groups, affected, upto - 1, panel);
        assert(active.take(upto) =~= active.take(upto - 1).push(active[upto - 1]));
        crate::ordering::pushed_contains(active.take(upto - 1), active[upto - 1], panel);
        crate::ordering::pushed_contains(still_active(active, groups, affected, upto - 1), active[upto - 1], panel);
    }
}

/// A panel joins the first group whose plane it lies in, or begins one; the others stay.
pub proof fn coplanar_panels_are_together(before: Seq<Vec<usize>>, after: Seq<Vec<usize>>, panel: usize, same: Seq<bool>)
    requires
        grouped(before, after, panel, same),
        same.len() == before.len(),
    ensures
        exists|g: int|
            0 <= g < after.len() && (#[trigger] after[g])@.len() > 0 && after[g]@.last() == panel && (g < before.len() ==> same[g]),
        forall|h: int|
            0 <= h < before.len() ==> before[h]@ == (#[trigger] after[h])@ || (same[h] && after[h]@ == before[h]@.push(panel)),
        forall|h: int, m: int| 0 <= m < h < before.len() && #[trigger] same[m] ==> (#[trigger] after[h])@ == before[h]@,
        after.len() > before.len() <==> forall|h: int| 0 <= h < same.len() ==> !#[trigger] same[h],
{
    if joins_none(same) {
        assert(after.last()@.last() == panel);
        let g = after.len() - 1;
        assert(after[g]@.len() > 0);
        assert forall|h: int| 0 <= h < before.len() implies before[h] == #[trigger] after[h] by {
            assert(after.drop_last()[h] == before[h]);
        }
    } else {
        let g = choose|g: int| #[trigger]
            joins(before, same, g) && after.len() == before.len() && after[g]@ == before[g]@.push(panel) && forall|h: int|
                0 <= h < before.len() && h != g ==> (#[trigger] after[h]) == before[h];
        assert(after[g]@.last() == panel);
    }
}

} // verus!
