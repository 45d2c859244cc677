//! Bounded removal of numerically collapsed openings, with source evidence.
use vstd::prelude::*;
use crate::ordering::copy_ids;
use crate::scalar::Scalar;

verus! {

#[derive(Debug, Clone, Copy)]
pub struct FeaturePolicy {
    /// Maximum source distance from the longest hole chord (model units).
    pub maximum_source_width: Scalar,
    /// Cumulative filled source area over exterior area, per property region.
    pub maximum_filled_area_ratio: Scalar,
}

/// 0.05
pub const NARROW: u64 = 0x3fa9_9999_9999_999a;

/// 0.001
pub const LITTLE: u64 = 0x3f50_624d_d2f1_a9fc;

impl Default for FeaturePolicy {
    fn default() -> (r: FeaturePolicy)
        ensures
            r.maximum_source_width == (Scalar { bits: NARROW }),
            r.maximum_filled_area_ratio == (Scalar { bits: LITTLE }),
    {
        FeaturePolicy {
            maximum_source_width: Scalar { bits: NARROW },
            maximum_filled_area_ratio: Scalar { bits: LITTLE },
        }
    }
}

#[derive(Debug)]
pub struct SimplifiedHole {
    pub patch: usize,
    pub source_elements: Vec<u32>,
    pub source_nodes: Vec<u32>,
    pub source_area: Scalar,
    pub source_width: Scalar,
    pub candidate_area: Scalar,
    pub candidate_width: Scalar,
    pub numerical_area_threshold: Scalar,
    pub exterior_source_area: Scalar,
}

/// What is measured of an opening in the source and under the candidate.
#[derive(Debug, Clone, Copy)]
pub struct HoleMeasure {
    /// Whether both source rings are valid and the hole lies strictly inside.
    pub source_valid: bool,
    pub source_area: Scalar,
    pub source_width: Scalar,
    pub candidate_area: Scalar,
    pub candidate_width: Scalar,
    /// Area below which the candidate counts as collapsed.
    pub threshold: Scalar,
    pub exterior_area: Scalar,
    /// Area filled so far together with this opening.
    pub filled_area: Scalar,
    /// Area that the policy allows to fill.
    pub fillable_area: Scalar,
}

/// The opening is narrow in the source, collapsed under the candidate, and the
/// area filled stays within its bound. Width keeps cancellation in a crossed
/// contour from looking like a collapsed opening.
pub open spec fn collapsed(measure: HoleMeasure, precision: Scalar, policy: FeaturePolicy) -> bool {
    &&& measure.source_valid
    &&& measure.source_width.le(policy.maximum_source_width)
    &&& measure.candidate_width.le(precision)
    &&& measure.candidate_area.le(measure.threshold)
    &&& Scalar::spec_zero().lt(measure.exterior_area)
    &&& measure.filled_area.le(measure.fillable_area)
}

pub fn is_collapsed(measure: &HoleMeasure, precision: &Scalar, policy: &FeaturePolicy) -> (r: bool)
    ensures
        r == collapsed(*measure, *precision, *policy),
{
    measure.source_valid && measure.source_width.at_most(&policy.maximum_source_width)
        && measure.candidate_width.at_most(precision) && measure.candidate_area.at_most(
        &measure.threshold,
    ) && Scalar::zero().less(&measure.exterior_area) && measure.filled_area.at_most(
        &measure.fillable_area,
    )
}

pub open spec fn recorded(
    hole: SimplifiedHole,
    measure: HoleMeasure,
    patch: usize,
    source_elements: Seq<u32>,
    ring: Seq<u32>,
) -> bool {
    &&& hole.patch == patch
    &&& hole.source_elements@ == source_elements
    &&& hole.source_nodes@ == ring
    &&& hole.source_area == measure.source_area
    &&& hole.source_width == measure.source_width
    &&& hole.candidate_area == measure.candidate_area
    &&& hole.candidate_width == measure.candidate_width
    &&& hole.numerical_area_threshold == measure.threshold
    &&& hole.exterior_source_area == measure.exterior_area
}

/// The rings of a region as its openings are gone through: those kept, the
/// exterior first, and the holes that were taken out.
#[derive(Debug)]
pub struct Simplification {
    pub kept: Vec<Vec<u32>>,
    pub removed: Vec<SimplifiedHole>,
}

impl Simplification {
    pub fn new(exterior: &Vec<u32>) -> (r: Simplification)
        ensures
            r.kept@.len() == 1,
            r.kept@[0]@ == exterior@,
            r.removed@.len() == 0,
    {
        let mut kept: Vec<Vec<u32>> = Vec::new();
        kept.push(copy_ids(exterior));
        Simplification { kept, removed: Vec::new() }
    }

    /// Takes a collapsed opening out, with its evidence, and keeps any other.
    pub fn consider(
        &mut self,
        ring: &Vec<u32>,
        measure: &HoleMeasure,
        precision: &Scalar,
        policy: &FeaturePolicy,
        patch: usize,
        source_elements: &Vec<u32>,
    )
        ensures
            if collapsed(*measure, *precision, *policy) {
                &&& final(self).kept@ == old(self).kept@
                &&& final(self).removed@.len() == old(self).removed@.len() + 1
                &&& final(self).removed@.drop_last() == old(self).removed@
                &&& recorded(
                    final(self).removed@.last(),
                    *measure,
                    patch,
                    source_elements@,
                    ring@,
                )
            } else {
                &&& final(self).removed@ == old(self).removed@
                &&& final(self).kept@.len() == old(self).kept@.len() + 1
                &&& final(self).kept@.drop_last() == old(self).kept@
                &&& final(self).kept@.last()@ == ring@
            },
            final(self).kept@.len() + final(self).removed@.len() == old(self).kept@.len()
                + old(self).removed@.len() + 1,
    {
        if is_collapsed(measure, precision, policy) {
            self.removed.push(
                SimplifiedHole {
                    patch,
                    source_elements: copy_ids(source_elements),
                    source_nodes: copy_ids(ring),
                    source_area: measure.source_area,
                    source_width: measure.source_width,
                    candidate_area: measure.candidate_area,
                    candidate_width: measure.candidate_width,
                    numerical_area_threshold: measure.threshold,
                    exterior_source_area: measure.exterior_area,
                },
            );
            assert(self.removed@.drop_last() =~= old(self).removed@);
        } else {
            self.kept.push(copy_ids(ring));
            assert(self.kept@.drop_last() =~= old(self).kept@);
        }
    }
}

/// A wide opening is never taken out, whatever the candidate makes of it.
pub proof fn wide_openings_stay(measure: HoleMeasure, precision: Scalar, policy: FeaturePolicy)
    requires
        policy.maximum_source_width.lt(measure.source_width),
    ensures
        !collapsed(measure, precision, policy),
{
}

/// An opening is taken out exactly when its source is valid and no wider than allowed, the
/// candidate has neither width nor area left, and the area that is filled stays within its
/// bound of an exterior that has one.
pub proof fn openings_go_when_collapsed(measure: HoleMeasure, precision: Scalar, policy: FeaturePolicy)
    requires
        !measure.source_width.nan() && !policy.maximum_source_width.nan(),
        !measure.candidate_width.nan() && !precision.nan(),
        !measure.candidate_area.nan() && !measure.threshold.nan(),
        !measure.filled_area.nan() && !measure.fillable_area.nan(),
    ensures
        collapsed(measure, precision, policy) <==> measure.source_valid && !policy.maximum_source_width.lt(measure.source_width)
            && !precision.lt(measure.candidate_width) && !measure.threshold.lt(measure.candidate_area)
            && !measure.fillable_area.lt(measure.filled_area) && Scalar::spec_zero().lt(measure.exterior_area),
{
}

/// Unless told otherwise an opening is narrow up to a twentieth of a unit, and a thousandth of
/// the exterior may be filled.
pub proof fn openings_have_bounds()
    ensures
        NARROW == 0x3fa9_9999_9999_999a,
        LITTLE == 0x3f50_624d_d2f1_a9fc,
{
}

/// What is on record of an opening is what was measured of it.
pub proof fn records_tell_the_measure(hole: SimplifiedHole, measure: HoleMeasure, patch: usize, source_elements: Seq<u32>, ring: Seq<u32>)
    requires
        recorded(hole, measure, patch, source_elements, ring),
    ensures
        hole.patch == patch && hole.source_elements@ == source_elements && hole.source_nodes@ == ring,
        hole.source_area == measure.source_area && hole.source_width == measure.source_width,
        hole.candidate_area == measure.candidate_area && hole.candidate_width == measure.candidate_width,
        hole.numerical_area_threshold == measure.threshold && hole.exterior_source_area == measure.exterior_area,
{
}

} // verus!
