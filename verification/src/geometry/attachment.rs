//! What becomes of bars and panels where they are attached to one another.
use vstd::prelude::*;
use crate::geometry::bar_contacts::{
    accepted_trial_is_better, best_choice, best_partial, better, check_solution, distinct_reasons, freeze,
    gap_allowed, has_text, ids_at, judge_trial, leaders_of, left_out, listed_next, lists_text, mentions_instead,
    note_partial, reason_added, reject, solution_fault, verdict_of, verdict_reason, verdict_text, Anchor,
    BarContactSummary, ContactQuality, CoupledPlaneSearch, NodePanels, PartialChoice, RotationTrial,
    SolutionMeasure, TrialVerdict, PRECISION,
};
use crate::input::Point;
use crate::models::{BarConstraint, BarPropertySpan, MacroBar, MacroPanel};
use crate::ordering::{ascending_indices, copy_ids, copy_indices, lists_distinct_indices, lists_id, lists_index, sorted_indices, stable_order};
use crate::points::{is_same_value, same_value};
use crate::scalar::Scalar;

verus! {

/// 1.0
pub const ONE: u64 = 0x3ff0_0000_0000_0000;

/// Where a constraint comes to lie on a bar with a moved end.
#[derive(Debug, Clone, Copy)]
pub struct ConstraintPlace {
    pub t: Scalar,
    pub off_axis: Scalar,
}

/// What is measured of a place that an anchor might go to.
#[derive(Debug)]
pub enum PlaceMeasure {
    /// A point on the bar, with the ends of the bar widened by the precision.
    Interior { t: Scalar, low: Scalar, high: Scalar, off_axis: Scalar },
    /// An end: the new length with room for rounding, what it must reach, and the
    /// product of old and new direction.
    End { length: Scalar, required: Scalar, direction: Scalar, constraints: Vec<ConstraintPlace> },
}

pub open spec fn constraint_stays(place: ConstraintPlace) -> bool {
    &&& Scalar::spec_zero().lt(place.t)
    &&& place.t.lt(Scalar { bits: ONE })
    &&& place.off_axis.le(Scalar { bits: PRECISION })
}

pub open spec fn constraints_stay(places: Seq<ConstraintPlace>) -> bool {
    forall|k: int| 0 <= k < places.len() ==> constraint_stays(#[trigger] places[k])
}

fn do_constraints_stay(places: &Vec<ConstraintPlace>) -> (r: bool)
    ensures
        r == constraints_stay(places@),
{
    let mut k: usize = 0;
    while k < places.len()
        invariant
            k <= places@.len(),
            forall|m: int| 0 <= m < k ==> constraint_stays(#[trigger] places@[m]),
        decreases places@.len() - k,
    {
        let place = places[k];
        if !Scalar::zero().less(&place.t) || !place.t.less(&Scalar { bits: ONE }) || !place.off_axis.at_most(
            &Scalar { bits: PRECISION },
        ) {
            assert(!constraint_stays(places@[k as int]));
            return false;
        }
        k += 1;
    }
    true
}

/// The bar stays straight, long enough and within its budget.
pub open spec fn place_safe(measure: PlaceMeasure, movement: Scalar, limit: Scalar) -> bool {
    &&& !limit.lt(movement)
    &&& match measure {
        PlaceMeasure::Interior { t, low, high, off_axis } => low.le(t) && t.le(high) && off_axis.le(
            Scalar { bits: PRECISION },
        ),
        PlaceMeasure::End { length, required, direction, constraints } => required.le(length)
            && Scalar::spec_zero().lt(direction) && constraints_stay(constraints@),
    }
}

/// Whether an anchor may go to a place. `movement` is its distance from where it
/// was at first.
pub fn is_place_safe(measure: &PlaceMeasure, movement: &Scalar, limit: &Scalar) -> (r: bool)
    ensures
        r == place_safe(*measure, *movement, *limit),
{
    if limit.less(movement) {
        return false;
    }
    let precision = Scalar { bits: PRECISION };
    match measure {
        PlaceMeasure::Interior { t, low, high, off_axis } => {
            low.at_most(t) && t.at_most(high) && off_axis.at_most(&precision)
        },
        PlaceMeasure::End { length, required, direction, constraints } => {
            required.at_most(length) && Scalar::zero().less(direction) && do_constraints_stay(constraints)
        },
    }
}

/// A surface takes a point inside it that is nothing or far enough away from its
/// boundary and its other points.
pub open spec fn surface_takes(inside: bool, gaps: Seq<[Scalar; 2]>, shortest: Scalar) -> bool {
    inside && forall|k: int| 0 <= k < gaps.len() ==> gap_allowed(#[trigger] gaps[k], shortest)
}

/// Whether a surface takes a point. Each gap comes with room for rounding.
pub fn does_surface_take(inside: bool, gaps: &Vec<[Scalar; 2]>, shortest: &Scalar) -> (r: bool)
    ensures
        r == surface_takes(inside, gaps@, *shortest),
{
    let mut k: usize = 0;
    while k < gaps.len()
        invariant
            k <= gaps@.len(),
            forall|m: int| 0 <= m < k ==> gap_allowed(#[trigger] gaps@[m], *shortest),
        decreases gaps@.len() - k,
    {
        let gap: [Scalar; 2] = gaps[k];
        if !gap[0].at_most(&Scalar { bits: PRECISION }) && !shortest.at_most(&gap[1]) {
            assert(!gap_allowed(gaps@[k as int], *shortest));
            return false;
        }
        k += 1;
    }
    inside
}

/// Where a group of anchors goes.
#[derive(Debug, Clone, Copy, PartialEq, Eq, Structural)]
pub enum Settlement {
    /// Nowhere.
    Left,
    /// To the point that all its surfaces take.
    Whole,
    /// To the point of a partial choice.
    Partial(usize),
    /// To a point that no surface takes but that joins its bars.
    Joined,
}

/// What becomes of a group whose surfaces do not take it together.
pub open spec fn settled_apart(
    r: Settlement,
    before: BarContactSummary,
    after: BarContactSummary,
    node: u32,
    indices: Seq<usize>,
    panel_ids: Seq<u32>,
    reason: Seq<char>,
    options: Seq<PartialChoice>,
    joinable: bool,
) -> bool {
    &&& after == (BarContactSummary {
        rejected_node_ids: after.rejected_node_ids,
        rejection_reasons: after.rejection_reasons,
        partial_groups: after.partial_groups,
        unresolved_panel_ids_by_node: after.unresolved_panel_ids_by_node,
        ..before
    })
    &&& after.rejected_node_ids@ == before.rejected_node_ids@.push(node)
    &&& reason_added(before.rejection_reasons@, after.rejection_reasons@, node, reason)
    &&& distinct_reasons(after.rejection_reasons@)
    &&& match r {
        Settlement::Partial(k) => {
            &&& best_choice(options, k as int)
            &&& after.partial_groups == before.partial_groups + 1
            &&& listed_next(
                before.unresolved_panel_ids_by_node@,
                after.unresolved_panel_ids_by_node@,
                node,
                ids_at(left_out(indices, options[k as int].compatible@, indices.len() as int), panel_ids),
            )
        },
        Settlement::Whole => false,
        Settlement::Joined | Settlement::Left => {
            &&& options.len() == 0
            &&& (r == Settlement::Joined <==> joinable)
            &&& after.partial_groups == before.partial_groups
            &&& listed_next(
                before.unresolved_panel_ids_by_node@,
                after.unresolved_panel_ids_by_node@,
                node,
                ids_at(indices, panel_ids),
            )
        },
    }
}

/// Settles a group of `anchors` places. `refusal` says why not all its surfaces
/// take it, if so; feasible incidence is kept even where another surface cannot
/// be reached, and bars may still be joined where no surface takes them.
/// `joint_found` says that there is a point for that.
pub fn settle_group(
    stats: &mut BarContactSummary,
    node: u32,
    anchors: usize,
    indices: &Vec<usize>,
    panel_ids: &Vec<u32>,
    refusal: Option<&'static str>,
    options: &Vec<PartialChoice>,
    joint_found: bool,
) -> (r: Settlement)
    requires
        distinct_reasons(old(stats).rejection_reasons@),
        forall|m: int| 0 <= m < indices@.len() ==> #[trigger] indices@[m] < panel_ids@.len(),
        old(stats).partial_groups < usize::MAX,
    ensures
        match refusal {
            None => r == Settlement::Whole && *final(stats) == *old(stats),
            Some(reason) => settled_apart(
                r,
                *old(stats),
                *final(stats),
                node,
                indices@,
                panel_ids@,
                reason@,
                options@,
                anchors >= 2 && joint_found,
            ),
        },
{
    match refusal {
        None => Settlement::Whole,
        Some(reason) => {
            reject(stats, node, reason);
            match best_partial(options) {
                Some(k) => {
                    let compatible = Some(copy_indices(&options[k].compatible));
                    note_partial(stats, node, indices, &compatible, panel_ids);
                    Settlement::Partial(k)
                },
                None => {
                    note_partial(stats, node, indices, &None, panel_ids);
                    if anchors >= 2 && joint_found {
                        Settlement::Joined
                    } else {
                        Settlement::Left
                    }
                },
            }
        },
    }
}

proof fn left_out_lists(indices: Seq<usize>, compatible: Seq<usize>, upto: int, i: int)
    requires
        0 <= i < upto <= indices.len(),
    ensures
        compatible.contains(indices[i]) || left_out(indices, compatible, upto).contains(indices[i]),
    decreases upto,
{
    let rest = left_out(indices, compatible, upto - 1);
    let whole = left_out(indices, compatible, upto);
    if i == upto - 1 {
        if !compatible.contains(indices[i]) {
            assert(whole[rest.len() as int] == indices[i]);
        }
    } else {
        left_out_lists(indices, compatible, upto - 1, i);
        if rest.contains(indices[i]) {
            let k = choose|k: int| 0 <= k < rest.len() && rest[k] == indices[i];
            assert(whole[k] == indices[i]);
        }
    }
}

/// No incidence of a refused group is forgotten: each surface is among those that
/// the group is put on or is listed as missing.
pub proof fn missing_incidence_is_listed(
    r: Settlement,
    before: BarContactSummary,
    after: BarContactSummary,
    node: u32,
    indices: Seq<usize>,
    panel_ids: Seq<u32>,
    reason: Seq<char>,
    options: Seq<PartialChoice>,
    joinable: bool,
    i: int,
)
    requires
        settled_apart(r, before, after, node, indices, panel_ids, reason, options, joinable),
        0 <= i < indices.len(),
    ensures
        after.unresolved_panel_ids_by_node@.last().node == node,
        (r matches Settlement::Partial(k) && options[k as int].compatible@.contains(indices[i]))
            || after.unresolved_panel_ids_by_node@.last().panel_ids@.contains(panel_ids[indices[i] as int]),
{
    let listed = after.unresolved_panel_ids_by_node@.last().panel_ids@;
    match r {
        Settlement::Partial(k) => {
            let compatible = options[k as int].compatible@;
            left_out_lists(indices, compatible, indices.len() as int, i);
            let rest = left_out(indices, compatible, indices.len() as int);
            if rest.contains(indices[i]) {
                let m = choose|m: int| 0 <= m < rest.len() && rest[m] == indices[i];
                assert(listed[m] == panel_ids[indices[i] as int]);
            }
        },
        _ => {
            assert(listed[i] == panel_ids[indices[i] as int]);
        },
    }
}

/// A constraint of a bar that takes its property spans along.
pub open spec fn carries_property(constraint: BarConstraint) -> bool {
    lists_text(constraint.kinds@, "property_boundary"@)
}

/// How far the ends of a span are from a constraint.
#[derive(Debug, Clone, Copy)]
pub struct SpanGaps {
    pub start: Scalar,
    pub end: Scalar,
}

/// A span after a constraint went from its ends to `t`.
pub open spec fn span_moved(span: BarPropertySpan, gaps: SpanGaps, t: Scalar) -> BarPropertySpan {
    let near = |gap: Scalar| gap.lt(Scalar { bits: PRECISION });
    BarPropertySpan {
        start_t: if near(gaps.start) {
            t
        } else {
            span.start_t
        },
        end_t: if near(gaps.end) {
            t
        } else {
            span.end_t
        },
        ..span
    }
}

/// A bar after one of its constraints went to `t`.
pub open spec fn constraint_moved(before: MacroBar, after: MacroBar, k: int, t: Scalar, gaps: Seq<SpanGaps>) -> bool {
    &&& after == (MacroBar { constraints: after.constraints, property_spans: after.property_spans, ..before })
    &&& after.constraints@ == before.constraints@.update(k, (BarConstraint { t, ..before.constraints@[k] }))
    &&& after.property_spans@.len() == before.property_spans@.len()
    &&& forall|i: int|
        0 <= i < before.property_spans@.len() ==> #[trigger] after.property_spans@[i] == if carries_property(
            before.constraints@[k],
        ) {
            span_moved(before.property_spans@[i], gaps[i], t)
        } else {
            before.property_spans@[i]
        }
}

/// Moves a constraint along its bar. A property boundary takes its spans along.
pub fn move_constraint(bar: &mut MacroBar, k: usize, t: Scalar, gaps: &Vec<SpanGaps>)
    requires
        k < old(bar).constraints@.len(),
        gaps@.len() == old(bar).property_spans@.len(),
    ensures
        constraint_moved(*old(bar), *final(bar), k as int, t, gaps@),
{
    let precision = Scalar { bits: PRECISION };
    if has_text(&bar.constraints[k].kinds, "property_boundary") {
        let mut i: usize = 0;
        while i < bar.property_spans.len()
            invariant
                precision == (Scalar { bits: PRECISION }),
                gaps@.len() == old(bar).property_spans@.len(),
                i <= bar.property_spans@.len(),
                *bar == (MacroBar { property_spans: bar.property_spans, ..*old(bar) }),
                bar.property_spans@.len() == old(bar).property_spans@.len(),
                forall|m: int|
                    0 <= m < bar.property_spans@.len() ==> #[trigger] bar.property_spans@[m] == if m < i {
                        span_moved(old(bar).property_spans@[m], gaps@[m], t)
                    } else {
                        old(bar).property_spans@[m]
                    },
            decreases bar.property_spans@.len() - i,
        {
            if gaps[i].start.less(&precision) {
                bar.property_spans[i].start_t = t;
            }
            if gaps[i].end.less(&precision) {
                bar.property_spans[i].end_t = t;
            }
            i += 1;
        }
    }
    bar.constraints[k].t = t;
    assert(bar.constraints@ =~= old(bar).constraints@.update(
        k as int,
        (BarConstraint { t, ..old(bar).constraints@[k as int] }),
    ));
}

/// A bar whose anchor lies on panels.
pub open spec fn panels_named(before: MacroBar, after: MacroBar, anchor: Anchor, panel_ids: Seq<u32>) -> bool {
    match anchor {
        Anchor::Start => after.start_panel_ids@ == panel_ids && after == (MacroBar {
            start_panel_ids: after.start_panel_ids,
            ..before
        }),
        Anchor::End => after.end_panel_ids@ == panel_ids && after == (MacroBar {
            end_panel_ids: after.end_panel_ids,
            ..before
        }),
        Anchor::Interior(k) => {
            &&& after == (MacroBar { constraints: after.constraints, ..before })
            &&& after.constraints@.len() == before.constraints@.len()
            &&& after.constraints@[k as int].panel_ids@ == panel_ids
            &&& after.constraints@ == before.constraints@.update(
                k as int,
                (BarConstraint {
                    panel_ids: after.constraints@[k as int].panel_ids,
                    ..before.constraints@[k as int]
                }),
            )
        },
    }
}

/// Names the panels that an anchor lies on.
pub fn name_panels(bar: &mut MacroBar, anchor: Anchor, panel_ids: &Vec<u32>)
    requires
        match anchor {
            Anchor::Interior(k) => k < old(bar).constraints@.len(),
            _ => true,
        },
    ensures
        panels_named(*old(bar), *final(bar), anchor, panel_ids@),
{
    let ids = copy_ids(panel_ids);
    match anchor {
        Anchor::Start => {
            bar.start_panel_ids = ids;
        },
        Anchor::End => {
            bar.end_panel_ids = ids;
        },
        Anchor::Interior(k) => {
            bar.constraints[k].panel_ids = ids;
            assert(bar.constraints@ =~= old(bar).constraints@.update(
                k as int,
                (BarConstraint {
                    panel_ids: bar.constraints@[k as int].panel_ids,
                    ..old(bar).constraints@[k as int]
                }),
            ));
        },
    }
}

/// New parameters of a span.
#[derive(Debug, Clone, Copy)]
pub struct SpanPlace {
    pub start: Scalar,
    pub end: Scalar,
}

/// A span of a bar with a moved end. The ends of the bar stay its ends.
pub open spec fn span_rescaled(span: BarPropertySpan, place: SpanPlace) -> BarPropertySpan {
    BarPropertySpan {
        start_t: if same_value(span.start_t, Scalar::spec_zero()) {
            Scalar::spec_zero()
        } else {
            place.start
        },
        end_t: if same_value(span.end_t, Scalar { bits: ONE }) {
            Scalar { bits: ONE }
        } else {
            place.end
        },
        ..span
    }
}

pub open spec fn rescaled(before: MacroBar, after: MacroBar, places: Seq<Scalar>, spans: Seq<SpanPlace>) -> bool {
    &&& after == (MacroBar { constraints: after.constraints, property_spans: after.property_spans, ..before })
    &&& after.constraints@ == Seq::new(
        before.constraints@.len(),
        |k: int| BarConstraint { t: places[k], ..before.constraints@[k] },
    )
    &&& after.property_spans@ == Seq::new(
        before.property_spans@.len(),
        |k: int| span_rescaled(before.property_spans@[k], spans[k]),
    )
}

/// Takes over where constraints and spans lie on a bar with a moved end.
pub fn rescale(bar: &mut MacroBar, places: &Vec<Scalar>, spans: &Vec<SpanPlace>)
    requires
        places@.len() == old(bar).constraints@.len(),
        spans@.len() == old(bar).property_spans@.len(),
    ensures
        rescaled(*old(bar), *final(bar), places@, spans@),
{
    let mut k: usize = 0;
    while k < bar.constraints.len()
        invariant
            k <= bar.constraints@.len(),
            places@.len() == old(bar).constraints@.len(),
            *bar == (MacroBar { constraints: bar.constraints, ..*old(bar) }),
            bar.constraints@.len() == old(bar).constraints@.len(),
            forall|m: int|
                0 <= m < bar.constraints@.len() ==> #[trigger] bar.constraints@[m] == if m < k {
                    BarConstraint { t: places@[m], ..old(bar).constraints@[m] }
                } else {
                    old(bar).constraints@[m]
                },
        decreases bar.constraints@.len() - k,
    {
        bar.constraints[k].t = places[k];
        k += 1;
    }
    let ghost between = bar.constraints;
    let one = Scalar { bits: ONE };
    let mut k: usize = 0;
    while k < bar.property_spans.len()
        invariant
            k <= bar.property_spans@.len(),
            one == (Scalar { bits: ONE }),
            spans@.len() == old(bar).property_spans@.len(),
            *bar == (MacroBar { constraints: between, property_spans: bar.property_spans, ..*old(bar) }),
            bar.property_spans@.len() == old(bar).property_spans@.len(),
            forall|m: int|
                0 <= m < bar.property_spans@.len() ==> #[trigger] bar.property_spans@[m] == if m < k {
                    span_rescaled(old(bar).property_spans@[m], spans@[m])
                } else {
                    old(bar).property_spans@[m]
                },
        decreases bar.property_spans@.len() - k,
    {
        if is_same_value(&bar.property_spans[k].start_t, &Scalar::zero()) {
            bar.property_spans[k].start_t = Scalar::zero();
        } else {
            bar.property_spans[k].start_t = spans[k].start;
        }
        if is_same_value(&bar.property_spans[k].end_t, &one) {
            bar.property_spans[k].end_t = one;
        } else {
            bar.property_spans[k].end_t = spans[k].end;
        }
        k += 1;
    }
    assert(bar.constraints@ =~= Seq::new(
        old(bar).constraints@.len(),
        |k: int| BarConstraint { t: places@[k], ..old(bar).constraints@[k] },
    ));
    assert(bar.property_spans@ =~= Seq::new(
        old(bar).property_spans@.len(),
        |k: int| span_rescaled(old(bar).property_spans@[k], spans@[k]),
    ));
}

/// All known points are further away than the precision.
pub open spec fn new_point(distances: Seq<Scalar>) -> bool {
    forall|k: int| 0 <= k < distances.len() ==> (Scalar { bits: PRECISION }).lt(#[trigger] distances[k])
}

/// Adds a point to those of a panel, unless it is there. `distances` are those
/// from the known points.
pub fn add_point(points: &mut Vec<Point>, point: Point, distances: &Vec<Scalar>)
    ensures
        final(points)@ == if new_point(distances@) {
            old(points)@.push(point)
        } else {
            old(points)@
        },
{
    let precision = Scalar { bits: PRECISION };
    let mut k: usize = 0;
    while k < distances.len()
        invariant
            k <= distances@.len(),
            precision == (Scalar { bits: PRECISION }),
            forall|m: int| 0 <= m < k ==> precision.lt(#[trigger] distances@[m]),
            *points == *old(points),
        decreases distances@.len() - k,
    {
        if !precision.less(&distances[k]) {
            return;
        }
        k += 1;
    }
    points.push(point);
}

/// What is listed last for a node.
pub open spec fn last_listed(list: Seq<NodePanels>, node: u32, upto: int) -> Option<Seq<u32>>
    decreases upto,
{
    if upto <= 0 {
        None
    } else if list[upto - 1].node == node {
        Some(list[upto - 1].panel_ids@)
    } else {
        last_listed(list, node, upto - 1)
    }
}

pub open spec fn listed_for(list: Seq<NodePanels>, node: u32) -> Option<Seq<u32>> {
    last_listed(list, node, list.len() as int)
}

fn find_listed(list: &Vec<NodePanels>, node: u32) -> (r: Option<usize>)
    ensures
        match r {
            Some(k) => k < list@.len() && listed_for(list@, node) == Some(list@[k as int].panel_ids@),
            None => listed_for(list@, node) is None,
        },
{
    let mut k: usize = list.len();
    while k > 0
        invariant
            k <= list@.len(),
            listed_for(list@, node) == last_listed(list@, node, k as int),
        decreases k,
    {
        if list[k - 1].node == node {
            return Some(k - 1);
        }
        k -= 1;
    }
    None
}

fn same_ids(a: &Vec<u32>, b: &Vec<u32>) -> (r: bool)
    ensures
        r == (a@ == b@),
{
    if a.len() != b.len() {
        return false;
    }
    let mut k: usize = 0;
    while k < a.len()
        invariant
            k <= a@.len(),
            a@.len() == b@.len(),
            forall|m: int| 0 <= m < k ==> #[trigger] a@[m] == b@[m],
        decreases a@.len() - k,
    {
        if a[k] != b[k] {
            return false;
        }
        k += 1;
    }
    assert(a@ =~= b@);
    true
}

proof fn listed_somewhere(list: Seq<NodePanels>, node: u32, upto: int)
    requires
        0 <= upto <= list.len(),
    ensures
        last_listed(list, node, upto) is Some <==> exists|k: int|
            0 <= k < upto && (#[trigger] list[k]).node == node,
    decreases upto,
{
    if upto > 0 {
        listed_somewhere(list, node, upto - 1);
        if last_listed(list, node, upto - 1) is Some {
            let k = choose|k: int| 0 <= k < upto - 1 && (#[trigger] list[k]).node == node;
            assert(list[k].node == node);
        }
        if list[upto - 1].node == node {
            assert(0 <= upto - 1 < upto);
        }
    }
}

/// Whether each node of the first list has the same panels in both.
#[verifier::loop_isolation(false)]
fn lists_agree(a: &Vec<NodePanels>, b: &Vec<NodePanels>) -> (r: bool)
    ensures
        r <==> forall|node: u32|
            listed_for(a@, node) is Some ==> #[trigger] listed_for(a@, node) == listed_for(b@, node),
{
    let mut k: usize = 0;
    while k < a.len()
        invariant
            k <= a@.len(),
            forall|m: int|
                0 <= m < k ==> listed_for(a@, (#[trigger] a@[m]).node) == listed_for(b@, a@[m].node),
        decreases a@.len() - k,
    {
        let node: u32 = a[k].node;
        proof {
            listed_somewhere(a@, node, a@.len() as int);
            assert(a@[k as int].node == node);
        }
        let own = find_listed(a, node);
        let other = find_listed(b, node);
        let equal: bool = match (own, other) {
            (Some(i), Some(j)) => same_ids(&a[i].panel_ids, &b[j].panel_ids),
            _ => false,
        };
        if !equal {
            assert(listed_for(a@, node) is Some);
            assert(listed_for(a@, node) != listed_for(b@, node));
            return false;
        }
        k += 1;
    }
    assert forall|node: u32| listed_for(a@, node) is Some implies #[trigger] listed_for(a@, node) == listed_for(
        b@,
        node,
    ) by {
        listed_somewhere(a@, node, a@.len() as int);
        let m = choose|m: int| 0 <= m < a@.len() && (#[trigger] a@[m]).node == node;
        assert(listed_for(a@, a@[m].node) == listed_for(b@, a@[m].node));
    }
    true
}

/// Both lists say the same of every node.
pub open spec fn same_listing(a: Seq<NodePanels>, b: Seq<NodePanels>) -> bool {
    forall|node: u32| #[trigger] listed_for(a, node) == listed_for(b, node)
}

/// Whether two outcomes rest on the same hypotheses about what nodes lie on. Only
/// such outcomes can be compared.
pub fn same_hypotheses(a: &BarContactSummary, b: &BarContactSummary) -> (r: bool)
    ensures
        r == (same_listing(a.inferred_panel_ids_by_node@, b.inferred_panel_ids_by_node@) && same_listing(
            a.ambiguous_panel_ids_by_node@,
            b.ambiguous_panel_ids_by_node@,
        )),
{
    is_same_listing(&a.inferred_panel_ids_by_node, &b.inferred_panel_ids_by_node) && is_same_listing(
        &a.ambiguous_panel_ids_by_node,
        &b.ambiguous_panel_ids_by_node,
    )
}

fn is_same_listing(a: &Vec<NodePanels>, b: &Vec<NodePanels>) -> (r: bool)
    ensures
        r == same_listing(a@, b@),
{
    let forward: bool = lists_agree(a, b);
    let backward: bool = lists_agree(b, a);
    proof {
        if forward && backward {
            assert forall|node: u32| #[trigger] listed_for(a@, node) == listed_for(b@, node) by {
                if listed_for(a@, node) is None && listed_for(b@, node) is Some {
                    assert(listed_for(b@, node) == listed_for(a@, node));
                }
            }
        }
        if same_listing(a@, b@) {
            assert forall|node: u32| listed_for(b@, node) is Some implies #[trigger] listed_for(b@, node) == listed_for(
                a@,
                node,
            ) by {
                assert(listed_for(a@, node) == listed_for(b@, node));
            }
        }
    }
    forward && backward
}

/// The record before any turned planes were tried.
pub fn no_trial(baseline_missing: usize) -> (r: RotationTrial)
    ensures
        r.proposed_panels == 0,
        r.attempted_candidates == 0,
        !r.accepted,
        r.reason@ == "no_safe_rotation"@,
        r.baseline_missing_incidences == baseline_missing,
        r.candidate_missing_incidences is None,
        r.max_rotation_radians == Scalar::spec_zero(),
{
    RotationTrial {
        proposed_panels: 0,
        attempted_candidates: 0,
        accepted: false,
        reason: "no_safe_rotation".to_string(),
        baseline_missing_incidences: baseline_missing,
        candidate_missing_incidences: None,
        max_rotation_radians: Scalar::zero(),
    }
}

/// What is measured of a trial with turned planes.
#[derive(Debug, Clone, Copy)]
pub struct TrialMeasure {
    pub proposed_panels: usize,
    pub candidate: ContactQuality,
    pub best: ContactQuality,
    /// How far bars moved, if all their source constraints are still there.
    pub bar_movement: Option<Scalar>,
    pub panel_movement: Scalar,
    pub limit: Scalar,
    pub rotation: Scalar,
}

/// A trial counts only against an outcome with the same hypotheses, and only while
/// no source constraint is lost.
pub open spec fn trial_counts(comparable: bool, measure: TrialMeasure) -> bool {
    comparable && measure.bar_movement is Some
}

pub open spec fn trial_verdict(measure: TrialMeasure) -> TrialVerdict {
    verdict_of(
        measure.candidate,
        measure.best,
        measure.bar_movement->0,
        measure.panel_movement,
        measure.limit,
    )
}

/// The record of a trial.
pub open spec fn trial_recorded(record: RotationTrial, baseline_missing: usize, measure: TrialMeasure) -> bool {
    &&& record.proposed_panels == measure.proposed_panels
    &&& record.attempted_candidates == 0
    &&& record.accepted == (trial_verdict(measure) == TrialVerdict::Improved)
    &&& record.reason@ == verdict_text(trial_verdict(measure))
    &&& record.baseline_missing_incidences == baseline_missing
    &&& record.candidate_missing_incidences == Some(measure.candidate.missing)
    &&& record.max_rotation_radians == measure.rotation
}

/// A failed trial is mentioned if none was accepted and it left less missing than
/// the one on record.
pub open spec fn worth_mention(record: RotationTrial, measure: TrialMeasure) -> bool {
    !record.accepted && match record.candidate_missing_incidences {
        None => true,
        Some(before) => before > measure.candidate.missing,
    }
}

/// Considers a trial with turned planes. It says whether the trial replaces what
/// there is.
pub fn consider_trial(
    record: &mut RotationTrial,
    baseline_missing: usize,
    comparable: bool,
    measure: &TrialMeasure,
) -> (taken: bool)
    ensures
        taken == (trial_counts(comparable, *measure) && trial_verdict(*measure) == TrialVerdict::Improved),
        if taken || (trial_counts(comparable, *measure) && worth_mention(*old(record), *measure)) {
            trial_recorded(*final(record), baseline_missing, *measure)
        } else {
            *final(record) == *old(record)
        },
{
    if !comparable {
        return false;
    }
    match &measure.bar_movement {
        None => false,
        Some(movement) => {
            let verdict = judge_trial(
                &measure.candidate,
                &measure.best,
                movement,
                &measure.panel_movement,
                &measure.limit,
            );
            let taken: bool = verdict == TrialVerdict::Improved;
            if taken || mentions_instead(record, Some(measure.candidate.missing)) {
                *record = RotationTrial {
                    proposed_panels: measure.proposed_panels,
                    attempted_candidates: 0,
                    accepted: taken,
                    reason: verdict_reason(verdict),
                    baseline_missing_incidences: baseline_missing,
                    candidate_missing_incidences: Some(measure.candidate.missing),
                    max_rotation_radians: measure.rotation,
                };
            }
            taken
        },
    }
}

/// A trial that replaces an outcome is better than it and keeps the movement limit.
pub proof fn taken_trial_is_better(comparable: bool, measure: TrialMeasure)
    requires
        trial_counts(comparable, measure),
        trial_verdict(measure) == TrialVerdict::Improved,
    ensures
        better(measure.candidate, measure.best),
        !better(measure.best, measure.candidate),
        !measure.limit.lt(measure.bar_movement->0),
        !measure.limit.lt(measure.panel_movement),
{
    accepted_trial_is_better(
        measure.candidate,
        measure.best,
        measure.bar_movement->0,
        measure.panel_movement,
        measure.limit,
    );
}

/// An incidence of the coupled search: a node and the panel it lies on.
pub type Incidence = (u32, usize);

/// The incidences that stay.
pub open spec fn retained(surface: Seq<Incidence>, removed: Seq<usize>, upto: int) -> Seq<Incidence>
    decreases upto,
{
    if upto <= 0 {
        Seq::empty()
    } else if removed.contains((upto - 1) as usize) {
        retained(surface, removed, upto - 1)
    } else {
        retained(surface, removed, upto - 1).push(surface[upto - 1])
    }
}

/// Takes incidences out of a coupled search. What was let go of is recorded by node
/// and panel.
#[verifier::loop_isolation(false)]
pub fn release(
    search: &mut CoupledPlaneSearch,
    surface: &Vec<Incidence>,
    removed: &Vec<usize>,
    panel_ids: &Vec<u32>,
) -> (r: Vec<Incidence>)
    requires
        forall|k: int| 0 <= k < removed@.len() ==> #[trigger] removed@[k] < surface@.len(),
        forall|k: int| 0 <= k < surface@.len() ==> (#[trigger] surface@[k]).1 < panel_ids@.len(),
    ensures
        r@ == retained(surface@, removed@, surface@.len() as int),
        final(search).relaxed_incidence_pairs@ == old(search).relaxed_incidence_pairs@ + Seq::new(
            removed@.len(),
            |k: int| [
                surface@[removed@[k] as int].0,
                panel_ids@[surface@[removed@[k] as int].1 as int],
            ],
        ),
        final(search).retained_incidence_count == r@.len(),
        *final(search) == (CoupledPlaneSearch {
            relaxed_incidence_pairs: final(search).relaxed_incidence_pairs,
            retained_incidence_count: final(search).retained_incidence_count,
            ..*old(search)
        }),
{
    let ghost pairs = Seq::new(
        removed@.len(),
        |k: int| [surface@[removed@[k] as int].0, panel_ids@[surface@[removed@[k] as int].1 as int]],
    );
    let mut k: usize = 0;
    while k < removed.len()
        invariant
            k <= removed@.len(),
            search.relaxed_incidence_pairs@ =~= old(search).relaxed_incidence_pairs@ + pairs.take(k as int),
            *search == (CoupledPlaneSearch {
                relaxed_incidence_pairs: search.relaxed_incidence_pairs,
                ..*old(search)
            }),
        decreases removed@.len() - k,
    {
        assert(removed@[k as int] < surface@.len());
        let pair: Incidence = surface[removed[k]];
        assert(surface@[removed@[k as int] as int].1 < panel_ids@.len());
        search.relaxed_incidence_pairs.push([pair.0, panel_ids[pair.1]]);
        k += 1;
    }
    assert(pairs.take(removed@.len() as int) =~= pairs);
    let mut r: Vec<Incidence> = Vec::new();
    let mut k: usize = 0;
    while k < surface.len()
        invariant
            k <= surface@.len(),
            r@ == retained(surface@, removed@, k as int),
        decreases surface@.len() - k,
    {
        if !lists_index(removed, k) {
            r.push(surface[k]);
        }
        k += 1;
    }
    search.retained_incidence_count = r.len();
    r
}

/// A contact that was not made: a node, a panel that it should lie on, and whether
/// that was only inferred.
#[derive(Debug, Clone, Copy, PartialEq, Eq, Structural)]
pub struct MissingPair {
    pub node: u32,
    pub panel: usize,
    pub inferred: bool,
}

/// The first panel with an id.
pub open spec fn first_panel(ids: Seq<u32>, id: u32, p: int) -> bool {
    0 <= p < ids.len() && ids[p] == id && forall|q: int| 0 <= q < p ==> ids[q] != id
}

/// What was inferred for a node lists a panel.
pub open spec fn was_inferred(list: Seq<NodePanels>, node: u32, id: u32) -> bool {
    exists|k: int| 0 <= k < list.len() && (#[trigger] list[k]).node == node && list[k].panel_ids@.contains(id)
}

/// The contacts of one node that were not made, among the first `upto` it lists.
pub open spec fn missing_at(
    entry: NodePanels,
    inferred: Seq<NodePanels>,
    ids: Seq<u32>,
    upto: int,
    found: Seq<MissingPair>,
) -> bool
    decreases upto,
{
    if upto <= 0 {
        found.len() == 0
    } else {
        let id = entry.panel_ids@[upto - 1];
        if ids.contains(id) {
            &&& found.len() > 0
            &&& missing_at(entry, inferred, ids, upto - 1, found.drop_last())
            &&& found.last().node == entry.node
            &&& first_panel(ids, id, found.last().panel as int)
            &&& found.last().inferred == was_inferred(inferred, entry.node, id)
        } else {
            missing_at(entry, inferred, ids, upto - 1, found)
        }
    }
}

fn find_panel(ids: &Vec<u32>, id: u32) -> (r: Option<usize>)
    ensures
        match r {
            Some(p) => first_panel(ids@, id, p as int),
            None => !ids@.contains(id),
        },
{
    let mut p: usize = 0;
    while p < ids.len()
        invariant
            p <= ids@.len(),
            forall|q: int| 0 <= q < p ==> ids@[q] != id,
        decreases ids@.len() - p,
    {
        if ids[p] == id {
            return Some(p);
        }
        p += 1;
    }
    None
}

fn is_inferred(list: &Vec<NodePanels>, node: u32, id: u32) -> (r: bool)
    ensures
        r == was_inferred(list@, node, id),
{
    let mut k: usize = 0;
    while k < list.len()
        invariant
            k <= list@.len(),
            forall|m: int| 0 <= m < k ==> !((#[trigger] list@[m]).node == node && list@[m].panel_ids@.contains(id)),
        decreases list@.len() - k,
    {
        if list[k].node == node && lists_id(&list[k].panel_ids, id) {
            assert(list@[k as int].node == node && list@[k as int].panel_ids@.contains(id));
            return true;
        }
        k += 1;
    }
    false
}

/// The contacts that one entry lists and that were not made.
pub fn missing_of_node(entry: &NodePanels, inferred: &Vec<NodePanels>, panel_ids: &Vec<u32>) -> (found: Vec<
    MissingPair,
>)
    ensures
        missing_at(*entry, inferred@, panel_ids@, entry.panel_ids@.len() as int, found@),
{
    let mut found: Vec<MissingPair> = Vec::new();
    let mut k: usize = 0;
    while k < entry.panel_ids.len()
        invariant
            k <= entry.panel_ids@.len(),
            missing_at(*entry, inferred@, panel_ids@, k as int, found@),
        decreases entry.panel_ids@.len() - k,
    {
        let id: u32 = entry.panel_ids[k];
        match find_panel(panel_ids, id) {
            Some(panel) => {
                assert(panel_ids@.contains(id));
                let ghost before = found@;
                found.push(MissingPair { node: entry.node, panel, inferred: is_inferred(inferred, entry.node, id) });
                assert(found@.drop_last() =~= before);
            },
            None => {},
        }
        k += 1;
    }
    found
}

/// The order in which nodes with missing contacts are gone through.
pub open spec fn by_node(list: Seq<NodePanels>, order: Seq<usize>) -> bool {
    stable_order(Seq::new(list.len(), |k: int| list[k].node as i128), order)
}

/// Orders entries by node.
pub fn order_by_node(list: &Vec<NodePanels>) -> (order: Vec<usize>)
    ensures
        by_node(list@, order@),
{
    let mut keys: Vec<i128> = Vec::new();
    let mut k: usize = 0;
    while k < list.len()
        invariant
            k <= list@.len(),
            keys@.len() == k,
            forall|m: int| 0 <= m < k ==> #[trigger] keys@[m] == list@[m].node,
        decreases list@.len() - k,
    {
        keys.push(list[k].node as i128);
        k += 1;
    }
    assert(keys@ =~= Seq::new(list@.len(), |k: int| list@[k].node as i128));
    sorted_indices(&keys)
}

/// How many of the first indices are removed.
spec fn removed_below(removed: Seq<usize>, upto: int) -> nat
    decreases upto,
{
    if upto <= 0 {
        0
    } else {
        removed_below(removed, upto - 1) + if removed.contains((upto - 1) as usize) {
            1nat
        } else {
            0nat
        }
    }
}

proof fn one_less(removed: Seq<usize>, upto: int)
    requires
        removed.len() > 0,
        removed.no_duplicates(),
        0 <= upto <= usize::MAX + 1,
    ensures
        removed_below(removed, upto) == removed_below(removed.drop_last(), upto) + if removed.last() < upto {
            1nat
        } else {
            0nat
        },
    decreases upto,
{
    if upto > 0 {
        one_less(removed, upto - 1);
        let x = (upto - 1) as usize;
        let fewer = removed.drop_last();
        assert(removed.contains(x) <==> fewer.contains(x) || removed.last() == x) by {
            if removed.contains(x) {
                let k = choose|k: int| 0 <= k < removed.len() && removed[k] == x;
                if k < fewer.len() {
                    assert(fewer[k] == x);
                }
            }
            if fewer.contains(x) {
                let k = choose|k: int| 0 <= k < fewer.len() && fewer[k] == x;
                assert(removed[k] == x);
            }
            if removed.last() == x {
                assert(removed[removed.len() - 1] == x);
            }
        }
        if removed.last() == x && fewer.contains(x) {
            let k = choose|k: int| 0 <= k < fewer.len() && fewer[k] == x;
            assert(removed[k] == removed[removed.len() - 1]);
        }
    }
}

proof fn all_removed(removed: Seq<usize>, n: int)
    requires
        removed.no_duplicates(),
        0 <= n <= usize::MAX + 1,
        forall|k: int| 0 <= k < removed.len() ==> #[trigger] removed[k] < n,
    ensures
        removed_below(removed, n) == removed.len(),
    decreases removed.len(),
{
    if removed.len() == 0 {
        none_removed(removed, n);
    } else {
        let fewer = removed.drop_last();
        assert forall|i: int, j: int| 0 <= i < fewer.len() && 0 <= j < fewer.len() && i != j implies fewer[i] != fewer[j] by {
            assert(removed[i] != removed[j]);
        }
        all_removed(fewer, n);
        one_less(removed, n);
    }
}

proof fn none_removed(removed: Seq<usize>, n: int)
    requires
        removed.len() == 0,
    ensures
        removed_below(removed, n) == 0,
    decreases n,
{
    if n > 0 {
        none_removed(removed, n - 1);
    }
}

proof fn kept_or_removed(surface: Seq<Incidence>, removed: Seq<usize>, upto: int)
    requires
        0 <= upto <= surface.len(),
    ensures
        retained(surface, removed, upto).len() + removed_below(removed, upto) == upto,
    decreases upto,
{
    if upto > 0 {
        kept_or_removed(surface, removed, upto - 1);
    }
}

/// Every incidence of a coupled search is either retained or let go of.
pub proof fn incidences_are_accounted_for(surface: Seq<Incidence>, removed: Seq<usize>)
    requires
        removed.no_duplicates(),
        surface.len() <= usize::MAX,
        forall|k: int| 0 <= k < removed.len() ==> #[trigger] removed[k] < surface.len(),
    ensures
        retained(surface, removed, surface.len() as int).len() + removed.len() == surface.len(),
{
    kept_or_removed(surface, removed, surface.len() as int);
    all_removed(removed, surface.len() as int);
}

/// Bars and panels as a coupled search would leave them.
#[derive(Debug)]
pub struct Candidate {
    pub bars: Vec<MacroBar>,
    pub panels: Vec<MacroPanel>,
}

/// What follows from a coupled search that came to rest.
#[derive(Debug, Clone, Copy, PartialEq, Eq, Structural)]
pub enum Conclusion {
    Taken,
    Failed,
    /// More planes are frozen, and the search starts again.
    Again,
}

/// The numbers of the panels in frozen planes.
pub open spec fn frozen_ids(ids: Seq<u32>, leaders: Seq<usize>, frozen: Seq<usize>, upto: int) -> Seq<u32>
    decreases upto,
{
    if upto <= 0 {
        Seq::empty()
    } else if frozen.contains(leaders[upto - 1]) {
        frozen_ids(ids, leaders, frozen, upto - 1).push(ids[upto - 1])
    } else {
        frozen_ids(ids, leaders, frozen, upto - 1)
    }
}

/// Closes a coupled search that came to rest. The solution is taken as a whole where it
/// has no fault and every panel takes its shift; `candidate` lists the panels that do
/// not. Otherwise bars and panels stay as they were.
#[verifier::loop_isolation(false)]
pub fn conclude_search(
    search: &mut CoupledPlaneSearch,
    bars: &mut Vec<MacroBar>,
    panels: &mut Vec<MacroPanel>,
    measure: &SolutionMeasure,
    candidate: Result<Candidate, Vec<usize>>,
    frozen: &mut Vec<usize>,
    leaders: &Vec<usize>,
    ids: &Vec<u32>,
) -> (r: Conclusion)
    requires
        ascending_indices(old(frozen)@),
        ids@.len() == leaders@.len(),
        match candidate {
            Ok(_) => true,
            Err(affected) => forall|k: int| 0 <= k < affected@.len() ==> #[trigger] affected@[k] < leaders@.len(),
        },
    ensures
        ascending_indices(final(frozen)@),
        !(r is Taken) ==> *final(bars) == *old(bars) && *final(panels) == *old(panels),
        match (solution_fault(*measure), candidate) {
            (Some(fault), _) => {
                &&& r is Failed
                &&& *final(frozen) == *old(frozen)
                &&& final(search).failure_reason is Some && final(search).failure_reason->0@ == fault
                &&& *final(search) == (CoupledPlaneSearch {
                    failure_reason: final(search).failure_reason,
                    ..*old(search)
                })
            },
            (None, Ok(solution)) => {
                &&& r is Taken
                &&& *final(bars) == solution.bars
                &&& *final(panels) == solution.panels
                &&& *final(frozen) == *old(frozen)
                &&& *final(search) == (CoupledPlaneSearch { failure_reason: None, ..*old(search) })
            },
            (None, Err(affected)) => {
                &&& lists_distinct_indices(final(frozen)@, old(frozen)@ + leaders_of(affected@, leaders@))
                &&& r == if final(frozen)@.len() == old(frozen)@.len() {
                    Conclusion::Failed
                } else {
                    Conclusion::Again
                }
                &&& final(search).frozen_panel_ids@ == frozen_ids(
                    ids@,
                    leaders@,
                    final(frozen)@,
                    ids@.len() as int,
                )
                &&& *final(search) == (CoupledPlaneSearch {
                    frozen_panel_ids: final(search).frozen_panel_ids,
                    failure_reason: final(search).failure_reason,
                    ..*old(search)
                })
                &&& if r is Failed {
                    final(search).failure_reason is Some && final(search).failure_reason->0@ == "panel_geometry"@
                } else {
                    final(search).failure_reason == old(search).failure_reason
                }
            },
        },
{
    match check_solution(measure) {
        Err(reason) => {
            search.failure_reason = Some(reason.to_string());
            return Conclusion::Failed;
        },
        Ok(_) => {},
    }
    match candidate {
        Ok(solution) => {
            *bars = solution.bars;
            *panels = solution.panels;
            search.failure_reason = None;
            Conclusion::Taken
        },
        Err(affected) => {
            let grown = freeze(frozen, &affected, leaders);
            let ghost now = frozen@;
            let mut listed: Vec<u32> = Vec::new();
            let mut k: usize = 0;
            while k < ids.len()
                invariant
                    k <= ids@.len(),
                    frozen@ == now,
                    listed@ == frozen_ids(ids@, leaders@, now, k as int),
                decreases ids@.len() - k,
            {
                if lists_index(frozen, leaders[k]) {
                    listed.push(ids[k]);
                }
                k += 1;
            }
            search.frozen_panel_ids = listed;
            if grown {
                Conclusion::Again
            } else {
                search.failure_reason = Some("panel_geometry".to_string());
                Conclusion::Failed
            }
        },
    }
}

/// An anchor goes to a place only within its movement limit. Inside a bar it stays on the
/// axis between the ends; an end leaves the bar long enough, keeps its direction and keeps
/// every constraint between the ends.
pub proof fn safe_places_keep_the_bar(measure: PlaceMeasure, movement: Scalar, limit: Scalar)
    ensures
        limit.lt(movement) ==> !place_safe(measure, movement, limit),
        place_safe(measure, movement, limit) ==> match measure {
            PlaceMeasure::Interior { t, low, high, off_axis } => !t.lt(low) && !high.lt(t) && off_axis.le(
                Scalar { bits: 0x3e45_798e_e230_8c3a },
            ),
            PlaceMeasure::End { length, required, direction, constraints } => !length.lt(required) && Scalar::spec_zero().lt(
                direction,
            ) && forall|k: int|
                0 <= k < constraints@.len() ==> Scalar::spec_zero().lt((#[trigger] constraints@[k]).t) && constraints@[k].t.lt(
                    Scalar::spec_one(),
                ) && constraints@[k].off_axis.le(Scalar { bits: 0x3e45_798e_e230_8c3a }),
        },
        movement.le(limit) && (match measure {
            PlaceMeasure::Interior { t, low, high, off_axis } => low.le(t) && t.le(high) && off_axis.le(
                Scalar { bits: 0x3e45_798e_e230_8c3a },
            ),
            PlaceMeasure::End { length, required, direction, constraints } => required.le(length) && Scalar::spec_zero().lt(
                direction,
            ) && constraints@.len() == 0,
        }) ==> place_safe(measure, movement, limit),
{
    if place_safe(measure, movement, limit) {
        match measure {
            PlaceMeasure::End { length, required, direction, constraints } => {
                assert forall|k: int| 0 <= k < constraints@.len() implies Scalar::spec_zero().lt((#[trigger] constraints@[k]).t)
                    && constraints@[k].t.lt(Scalar::spec_one()) && constraints@[k].off_axis.le(
                    Scalar { bits: 0x3e45_798e_e230_8c3a },
                ) by {
                    assert(constraint_stays(constraints@[k]));
                }
            },
            _ => {},
        }
    }
}

/// A surface takes a point exactly when the point is inside it and, from each thing that is
/// there, either at no distance or at least the shortest edge away.
pub proof fn surfaces_take_spaced_points(inside: bool, gaps: Seq<[Scalar; 2]>, shortest: Scalar)
    ensures
        surface_takes(inside, gaps, shortest) <==> inside && forall|k: int|
            0 <= k < gaps.len() ==> (#[trigger] gaps[k])[0].le(Scalar { bits: 0x3e45_798e_e230_8c3a }) || shortest.le(gaps[k][1]),
{
    if surface_takes(inside, gaps, shortest) {
        assert forall|k: int| 0 <= k < gaps.len() implies (#[trigger] gaps[k])[0].le(Scalar { bits: 0x3e45_798e_e230_8c3a })
            || shortest.le(gaps[k][1]) by {
            assert(gap_allowed(gaps[k], shortest));
        }
    }
}

/// Moving a constraint moves nothing else of its bar but the ends of spans that lay there,
/// and those only with a property boundary.
pub proof fn moved_constraint_takes_its_spans(before: MacroBar, after: MacroBar, k: int, t: Scalar, gaps: Seq<SpanGaps>, i: int)
    requires
        constraint_moved(before, after, k, t, gaps),
        0 <= k < before.constraints@.len(),
        0 <= i < before.property_spans@.len(),
    ensures
        after.constraints@[k].t == t,
        after.constraints@[k].panel_ids == before.constraints@[k].panel_ids,
        after.constraints@[k].source_node_id == before.constraints@[k].source_node_id,
        forall|m: int|
            0 <= m < before.constraints@.len() && m != k ==> #[trigger] after.constraints@[m] == before.constraints@[m],
        after.property_spans@[i].stiffness_id == before.property_spans@[i].stiffness_id,
        after.property_spans@[i].source_element_ids == before.property_spans@[i].source_element_ids,
        after.start_point == before.start_point && after.end_point == before.end_point && after.bar_type == before.bar_type,
        !lists_text(before.constraints@[k].kinds@, "property_boundary"@) ==> after.property_spans@[i] == before.property_spans@[i],
        lists_text(before.constraints@[k].kinds@, "property_boundary"@) ==> {
            &&& gaps[i].start.lt(Scalar { bits: 0x3e45_798e_e230_8c3a }) ==> after.property_spans@[i].start_t == t
            &&& !gaps[i].start.lt(Scalar { bits: 0x3e45_798e_e230_8c3a }) ==> after.property_spans@[i].start_t
                == before.property_spans@[i].start_t
            &&& gaps[i].end.lt(Scalar { bits: 0x3e45_798e_e230_8c3a }) ==> after.property_spans@[i].end_t == t
            &&& !gaps[i].end.lt(Scalar { bits: 0x3e45_798e_e230_8c3a }) ==> after.property_spans@[i].end_t
                == before.property_spans@[i].end_t
        },
{
}

/// Naming the panels of an anchor names them at that anchor and at no other.
pub proof fn panels_are_named_at_their_anchor(before: MacroBar, after: MacroBar, anchor: Anchor, panel_ids: Seq<u32>)
    requires
        panels_named(before, after, anchor, panel_ids),
        anchor matches Anchor::Interior(k) ==> k < before.constraints@.len(),
    ensures
        anchor is Start ==> after.start_panel_ids@ == panel_ids,
        anchor is End ==> after.end_panel_ids@ == panel_ids,
        anchor matches Anchor::Interior(k) ==> after.constraints@[k as int].panel_ids@ == panel_ids,
        anchor !is Start ==> after.start_panel_ids == before.start_panel_ids,
        anchor !is End ==> after.end_panel_ids == before.end_panel_ids,
        anchor !is Interior ==> after.constraints == before.constraints,
        anchor matches Anchor::Interior(k) ==> forall|m: int|
            0 <= m < before.constraints@.len() && m != k ==> #[trigger] after.constraints@[m] == before.constraints@[m],
{
}

/// The ends of a bar stay the ends of its first and its last span.
pub proof fn outer_spans_stay_at_the_ends(span: BarPropertySpan, place: SpanPlace)
    ensures
        span.start_t == Scalar::spec_zero() ==> span_rescaled(span, place).start_t == Scalar::spec_zero(),
        span.end_t == Scalar::spec_one() ==> span_rescaled(span, place).end_t == Scalar::spec_one(),
        Scalar::spec_zero().lt(span.start_t) ==> span_rescaled(span, place).start_t == place.start,
        span.end_t.lt(Scalar::spec_one()) ==> span_rescaled(span, place).end_t == place.end,
        span_rescaled(span, place).stiffness_id == span.stiffness_id,
        span_rescaled(span, place).source_element_ids == span.source_element_ids,
{
}

/// A point is new exactly when no known one is within a hundred-millionth of it.
pub proof fn known_points_are_not_added(distances: Seq<Scalar>)
    requires
        forall|k: int| 0 <= k < distances.len() ==> !(#[trigger] distances[k]).nan(),
    ensures
        new_point(distances) <==> !exists|k: int|
            0 <= k < distances.len() && (#[trigger] distances[k]).le(Scalar { bits: 0x3e45_798e_e230_8c3a }),
{
}

/// What is listed for a node is what was listed last.
pub proof fn last_listing_counts(list: Seq<NodePanels>, node: u32, k: int)
    requires
        0 <= k < list.len(),
        list[k].node == node,
        forall|m: int| k < m < list.len() ==> (#[trigger] list[m]).node != node,
    ensures
        listed_for(list, node) == Some(list[k].panel_ids@),
{
    listing_at(list, node, k, list.len() as int);
}

proof fn listing_at(list: Seq<NodePanels>, node: u32, k: int, upto: int)
    requires
        0 <= k < upto <= list.len(),
        list[k].node == node,
        forall|m: int| k < m < list.len() ==> (#[trigger] list[m]).node != node,
    ensures
        last_listed(list, node, upto) == Some(list[k].panel_ids@),
    decreases upto,
{
    if k < upto - 1 {
        listing_at(list, node, k, upto - 1);
    }
}

/// An incidence stays exactly when it was not let go of.
pub proof fn kept_incidences_stay(surface: Seq<Incidence>, removed: Seq<usize>, upto: int, incidence: Incidence)
    requires
        0 <= upto <= surface.len(),
        surface.len() <= usize::MAX,
    ensures
        retained(surface, removed, upto).contains(incidence) <==> exists|k: int|
            0 <= k < upto && #[trigger] surface[k] == incidence && !removed.contains(k as usize),
    decreases upto,
{
    if upto > 0 {
        kept_incidences_stay(surface, removed, upto - 1, incidence);
        crate::ordering::pushed_contains(retained(surface, removed, upto - 1), surface[upto - 1], incidence);
        if surface[upto - 1] == incidence && !removed.contains((upto - 1) as usize) {
            assert(surface[upto - 1] == incidence);
        }
    }
}

/// A panel is frozen exactly when its plane is.
pub proof fn planes_freeze_their_panels(ids: Seq<u32>, leaders: Seq<usize>, frozen: Seq<usize>, upto: int, id: u32)
    requires
        0 <= upto <= ids.len(),
    ensures
        frozen_ids(ids, leaders, frozen, upto).contains(id) <==> exists|p: int|
            0 <= p < upto && #[trigger] ids[p] == id && frozen.contains(leaders[p]),
    decreases upto,
{
    if upto > 0 {
        planes_freeze_their_panels(ids, leaders, frozen, upto - 1, id);
        crate::ordering::pushed_contains(frozen_ids(ids, leaders, frozen, upto - 1), ids[upto - 1], id);
    }
}

/// Every contact that an entry lists and whose panel is known is found missing, with its panel
/// and with whether it was inferred; nothing else is.
pub proof fn missing_contacts_are_found(
    entry: NodePanels,
    inferred: Seq<NodePanels>,
    ids: Seq<u32>,
    upto: int,
    found: Seq<MissingPair>,
)
    requires
        0 <= upto <= entry.panel_ids@.len(),
        missing_at(entry, inferred, ids, upto, found),
    ensures
        found.len() <= upto,
        forall|k: int|
            0 <= k < found.len() ==> (#[trigger] found[k]).node == entry.node && found[k].panel < ids.len()
                && entry.panel_ids@.take(upto).contains(ids[found[k].panel as int]) && found[k].inferred == was_inferred(
                inferred,
                entry.node,
                ids[found[k].panel as int],
            ),
        forall|m: int|
            0 <= m < upto && ids.contains(#[trigger] entry.panel_ids@[m]) ==> exists|k: int|
                0 <= k < found.len() && ids[(#[trigger] found[k]).panel as int] == entry.panel_ids@[m],
    decreases upto,
{
    if upto > 0 {
        let id = entry.panel_ids@[upto - 1];
        let listed = entry.panel_ids@;
        assert(listed.take(upto) =~= listed.take(upto - 1).push(id));
        assert forall|x: u32| listed.take(upto - 1).contains(x) implies #[trigger] listed.take(upto).contains(x) by {
            crate::ordering::pushed_contains(listed.take(upto - 1), id, x);
        }
        crate::ordering::pushed_contains(listed.take(upto - 1), id, id);
        if ids.contains(id) {
            let rest = found.drop_last();
            missing_contacts_are_found(entry, inferred, ids, upto - 1, rest);
            assert forall|k: int| 0 <= k < found.len() implies (#[trigger] found[k]).node == entry.node && found[k].panel < ids.len()
                && listed.take(upto).contains(ids[found[k].panel as int]) && found[k].inferred == was_inferred(
                inferred,
                entry.node,
                ids[found[k].panel as int],
            ) by {
                if k < rest.len() {
                    assert(rest[k] == found[k]);
                }
            }
            assert forall|m: int| 0 <= m < upto && ids.contains(#[trigger] listed[m]) implies exists|k: int|
                0 <= k < found.len() && ids[(#[trigger] found[k]).panel as int] == listed[m] by {
                if m < upto - 1 {
                    let k = choose|k: int| 0 <= k < rest.len() && ids[(#[trigger] rest[k]).panel as int] == listed[m];
                    assert(found[k] == rest[k]);
                } else {
                    assert(ids[found[found.len() - 1].panel as int] == listed[m]);
                }
            }
        } else {
            missing_contacts_are_found(entry, inferred, ids, upto - 1, found);
        }
    }
}

/// Rescaling a bar moves its constraints and the inner ends of its spans, and nothing else: it
/// keeps what each of them is about, and the ends of the bar stay the ends of its spans.
pub proof fn rescaling_keeps_what_a_bar_is(before: MacroBar, after: MacroBar, places: Seq<Scalar>, spans: Seq<SpanPlace>, c: int, s: int)
    requires
        rescaled(before, after, places, spans),
        0 <= c < before.constraints@.len(),
        0 <= s < before.property_spans@.len(),
    ensures
        after.constraints@.len() == before.constraints@.len(),
        after.constraints@[c].t == places[c],
        after.constraints@[c].source_node_id == before.constraints@[c].source_node_id,
        after.constraints@[c].kinds == before.constraints@[c].kinds,
        after.constraints@[c].panel_ids == before.constraints@[c].panel_ids,
        after.property_spans@.len() == before.property_spans@.len(),
        after.property_spans@[s].stiffness_id == before.property_spans@[s].stiffness_id,
        before.property_spans@[s].start_t == Scalar::spec_zero() ==> after.property_spans@[s].start_t == Scalar::spec_zero(),
        !same_value(before.property_spans@[s].start_t, Scalar::spec_zero()) ==> after.property_spans@[s].start_t == spans[s].start,
        before.property_spans@[s].end_t == Scalar::spec_one() ==> after.property_spans@[s].end_t == Scalar::spec_one(),
        !same_value(before.property_spans@[s].end_t, Scalar::spec_one()) ==> after.property_spans@[s].end_t == spans[s].end,
        after.bar_type == before.bar_type,
        after.stiffness_id == before.stiffness_id,
        after.start_point == before.start_point,
        after.end_point == before.end_point,
{
    assert(after.constraints@[c] == (BarConstraint { t: places[c], ..before.constraints@[c] }));
    assert(after.property_spans@[s] == span_rescaled(before.property_spans@[s], spans[s]));
}

/// A trial is on record as accepted exactly when it improved the contacts, with how many were
/// missing before it and after.
pub proof fn trials_are_recorded_as_judged(record: RotationTrial, baseline_missing: usize, measure: TrialMeasure)
    requires
        trial_recorded(record, baseline_missing, measure),
    ensures
        record.accepted <==> record.reason@ == verdict_text(TrialVerdict::Improved) && trial_verdict(measure) == TrialVerdict::Improved,
        record.baseline_missing_incidences == baseline_missing,
        record.candidate_missing_incidences == Some(measure.candidate.missing),
        record.proposed_panels == measure.proposed_panels,
{
}

/// An accepted record gives way to no failed trial; any other only to one that leaves less
/// missing, and one without a trial to every one.
pub proof fn better_failures_are_mentioned(record: RotationTrial, measure: TrialMeasure)
    ensures
        record.accepted ==> !worth_mention(record, measure),
        !record.accepted && record.candidate_missing_incidences is None ==> worth_mention(record, measure),
        record.candidate_missing_incidences matches Some(before) ==> (worth_mention(record, measure) <==> !record.accepted
            && measure.candidate.missing < before),
{
}

/// Nodes with missing contacts are gone through by their numbers.
pub proof fn nodes_are_gone_through_by_number(list: Seq<NodePanels>, order: Seq<usize>, i: int, j: int)
    requires
        by_node(list, order),
        0 <= i < j < order.len(),
    ensures
        order[i] < list.len() && order[j] < list.len(),
        list[order[i] as int].node <= list[order[j] as int].node,
{
    let keys = Seq::new(list.len(), |k: int| list[k].node as i128);
    assert(crate::ordering::key_before(keys, order[i], order[j]));
    assert(keys[order[i] as int] == list[order[i] as int].node);
    assert(keys[order[j] as int] == list[order[j] as int].node);
}

/// A group that is settled apart is counted once more where a part of it is taken and not where
/// none is; its node is rejected either way, and no other tally changes.
pub proof fn groups_settled_apart_are_tallied(
    r: Settlement,
    before: BarContactSummary,
    after: BarContactSummary,
    node: u32,
    indices: Seq<usize>,
    panel_ids: Seq<u32>,
    reason: Seq<char>,
    options: Seq<PartialChoice>,
    joinable: bool,
)
    requires
        settled_apart(r, before, after, node, indices, panel_ids, reason, options, joinable),
    ensures
        after.partial_groups > before.partial_groups <==> r is Partial,
        r is Partial ==> after.partial_groups == before.partial_groups + 1,
        !(r is Partial) ==> after.partial_groups == before.partial_groups && options.len() == 0,
        !(r is Whole),
        r is Joined ==> joinable,
        r is Left ==> !joinable,
        after.rejected_node_ids@.last() == node,
        after.attached_groups == before.attached_groups,
        after.moved_groups == before.moved_groups,
        after.anchor_groups == before.anchor_groups,
        after.fitted_axes == before.fitted_axes,
        after.surface_crossings == before.surface_crossings,
        after.inferred_panel_ids_by_node == before.inferred_panel_ids_by_node,
        after.unresolved_bar_junctions == before.unresolved_bar_junctions,
{
}

} // verus!
