//! Tolerances and switches of a reconstruction.
use vstd::prelude::*;
use crate::scalar::{is_positive, positive, Scalar};

verus! {

/// 0.15
pub const PLANE_TOLERANCE: u64 = 0x3fc3_3333_3333_3333;

/// 0.08
pub const ANGLE_TOLERANCE: u64 = 0x3fb4_7ae1_47ae_147b;

/// 0.01
pub const SIMPLIFY_TOLERANCE: u64 = 0x3f84_7ae1_47ae_147b;

/// 0.001
pub const WELD_TOLERANCE: u64 = 0x3f50_624d_d2f1_a9fc;

/// 0.03
pub const SHORTEST_EDGE: u64 = 0x3f9e_b851_eb85_1eb8;

/// 0.05
pub const JOINT_TOLERANCE: u64 = 0x3fa9_9999_9999_999a;

/// All lengths are in units of the source model.
#[derive(Debug, Clone, Copy, PartialEq, Eq, Structural)]
pub struct ReconstructionConfig {
    /// Tolerance on slab levels and on distances to a plane.
    pub tol_dist: Scalar,
    /// Tolerance on the angle between normals, in radians.
    pub tol_angle: Scalar,
    /// Tolerance on the simplification of contours.
    pub simplify_tol: Scalar,
    /// Radius within which nodes are welded.
    pub weld_tol: Scalar,
    /// Shortest edge that the cleaning of a contour leaves.
    pub min_edge: Scalar,
    /// Tolerance on the boundaries of recovered panels.
    pub joint_tol: Scalar,
    /// Upper limit on the adaptive repair of contours.
    pub repair_max_tol: Scalar,
    /// Slabs are split along walls.
    pub split_slabs_by_walls: bool,
    /// Slabs are split along beams.
    pub split_slabs_by_beams: bool,
}

impl Default for ReconstructionConfig {
    fn default() -> (r: ReconstructionConfig)
        ensures
            r == (ReconstructionConfig {
                tol_dist: Scalar { bits: PLANE_TOLERANCE },
                tol_angle: Scalar { bits: ANGLE_TOLERANCE },
                simplify_tol: Scalar { bits: SIMPLIFY_TOLERANCE },
                weld_tol: Scalar { bits: WELD_TOLERANCE },
                min_edge: Scalar { bits: SHORTEST_EDGE },
                joint_tol: Scalar { bits: JOINT_TOLERANCE },
                repair_max_tol: Scalar { bits: PLANE_TOLERANCE },
                split_slabs_by_walls: true,
                split_slabs_by_beams: true,
            }),
    {
        ReconstructionConfig {
            tol_dist: Scalar { bits: PLANE_TOLERANCE },
            tol_angle: Scalar { bits: ANGLE_TOLERANCE },
            simplify_tol: Scalar { bits: SIMPLIFY_TOLERANCE },
            weld_tol: Scalar { bits: WELD_TOLERANCE },
            min_edge: Scalar { bits: SHORTEST_EDGE },
            joint_tol: Scalar { bits: JOINT_TOLERANCE },
            repair_max_tol: Scalar { bits: PLANE_TOLERANCE },
            split_slabs_by_walls: true,
            split_slabs_by_beams: true,
        }
    }
}

impl ReconstructionConfig {
    /// Every length tolerance is a finite positive number.
    pub open spec fn lengths_usable(self) -> bool {
        &&& positive(self.weld_tol)
        &&& positive(self.tol_dist)
        &&& positive(self.simplify_tol)
        &&& positive(self.min_edge)
        &&& positive(self.joint_tol)
        &&& positive(self.repair_max_tol)
    }

    pub fn has_usable_lengths(&self) -> (r: bool)
        ensures
            r == self.lengths_usable(),
    {
        is_positive(&self.weld_tol) && is_positive(&self.tol_dist) && is_positive(&self.simplify_tol)
            && is_positive(&self.min_edge) && is_positive(&self.joint_tol) && is_positive(
            &self.repair_max_tol,
        )
    }
}

/// The tolerances that a reconstruction goes by, unless told otherwise.
pub proof fn tolerances_have_their_values()
    ensures
        PLANE_TOLERANCE == 0x3fc3_3333_3333_3333,
        ANGLE_TOLERANCE == 0x3fb4_7ae1_47ae_147b,
        SIMPLIFY_TOLERANCE == 0x3f84_7ae1_47ae_147b,
        WELD_TOLERANCE == 0x3f50_624d_d2f1_a9fc,
        SHORTEST_EDGE == 0x3f9e_b851_eb85_1eb8,
        JOINT_TOLERANCE == 0x3fa9_9999_9999_999a,
{
}

/// Lengths are usable exactly when none of them is negative, nothing or without a value.
pub proof fn usable_lengths_are_positive(config: ReconstructionConfig)
    ensures
        config.lengths_usable() ==> positive(config.weld_tol) && positive(config.tol_dist) && positive(config.simplify_tol),
        config.lengths_usable() ==> positive(config.min_edge) && positive(config.joint_tol) && positive(config.repair_max_tol),
        !config.lengths_usable() ==> !positive(config.weld_tol) || !positive(config.tol_dist) || !positive(config.simplify_tol)
            || !positive(config.min_edge) || !positive(config.joint_tol) || !positive(config.repair_max_tol),
{
}

} // verus!
