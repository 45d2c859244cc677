//! Conservative recovery of openings on fixed shared supports. No hole filling,
//! copied junctions or dropped incidences.
use vstd::prelude::*;
use crate::connectivity::{components_of, linked_groups, share_label};
use crate::input::Point;
use crate::ordering::{ascending, ascending_indices, lists_id, lists_index, unique, unique_indices};
use crate::points::{is_same_position, same_position, PointTable};
use crate::reconstruction::assembly::supports::NodeSurfaces;
use crate::reconstruction::assembly::Policy;
use crate::reconstruction::frame::Axis;
use crate::registry::Registry;
use crate::scalar::Scalar;

verus! {

#[derive(Debug, Clone, Copy, PartialEq, Eq, Structural)]
pub enum HoleOutcome {
    Restored,
    CommonSupportsForceLineOrPoint,
    InvalidSourceContours,
    MissingClosedVertex,
    MovementBudget,
    AxisAnchorRequiresJointRepair,
    IncompatibleSupports,
    ContourConflict,
}

#[derive(Debug)]
pub struct HoleConstraint {
    pub source_nodes: Vec<u32>,
    /// Representative supports that every node of the hole lies on.
    pub common_supports: Vec<usize>,
    pub normal_rank: usize,
}

#[derive(Debug, Clone, Copy)]
pub struct HoleNodeChange {
    pub source_node: u32,
    pub before: Point,
    pub after: Point,
}

#[derive(Debug)]
pub struct HoleRecovery {
    pub patch: usize,
    pub source_elements: Vec<u32>,
    pub outcome: HoleOutcome,
    pub constraints: Vec<HoleConstraint>,
    /// Applied changes only. A failed attempt leaves shared coordinates alone.
    pub changes: Vec<HoleNodeChange>,
}

/// The node lies on a surface that the support represents.
pub open spec fn owned_support(
    owners: Seq<NodeSurfaces>,
    representatives: Seq<usize>,
    node: u32,
    support: usize,
) -> bool {
    exists|m: int, o: int|
        0 <= m < owners.len() && owners[m].node == node && 0 <= o < owners[m].surfaces@.len()
            && representatives[#[trigger] owners[m].surfaces@[o] as int] == support
}

/// Every node of the ring lies on the support.
pub open spec fn common_to_ring(
    ring: Seq<u32>,
    owners: Seq<NodeSurfaces>,
    representatives: Seq<usize>,
    support: usize,
) -> bool {
    ring.len() > 0 && forall|k: int|
        0 <= k < ring.len() ==> owned_support(owners, representatives, #[trigger] ring[k], support)
}

pub open spec fn owners_sorted(owners: Seq<NodeSurfaces>) -> bool {
    forall|k: int, l: int|
        0 <= k < l < owners.len() ==> (#[trigger] owners[k]).node < (#[trigger] owners[l]).node
}

pub open spec fn owners_in_range(owners: Seq<NodeSurfaces>, count: int) -> bool {
    forall|m: int, o: int|
        0 <= m < owners.len() && 0 <= o < owners[m].surfaces@.len() ==> #[trigger] owners[m].surfaces@[o]
            < count
}

pub fn find_owner(owners: &Vec<NodeSurfaces>, node: u32) -> (r: Option<usize>)
    requires
        owners_sorted(owners@),
    ensures
        match r {
            Some(m) => m < owners@.len() && owners@[m as int].node == node,
            None => forall|m: int| 0 <= m < owners@.len() ==> (#[trigger] owners@[m]).node != node,
        },
{
    let mut low: usize = 0;
    let mut high: usize = owners.len();
    while low < high
        invariant
            owners_sorted(owners@),
            low <= high <= owners.len(),
            forall|m: int| 0 <= m < low ==> (#[trigger] owners@[m]).node < node,
            forall|m: int| high <= m < owners@.len() ==> (#[trigger] owners@[m]).node > node,
        decreases high - low,
    {
        let middle: usize = low + (high - low) / 2;
        if owners[middle].node == node {
            return Some(middle);
        }
        if owners[middle].node < node {
            low = middle + 1;
        } else {
            high = middle;
        }
    }
    None
}

#[verifier::loop_isolation(false)]
fn supports_of(owners: &Vec<NodeSurfaces>, representatives: &Vec<usize>, node: u32) -> (r: Vec<usize>)
    requires
        owners_sorted(owners@),
        owners_in_range(owners@, representatives@.len() as int),
    ensures
        ascending_indices(r@),
        forall|s: usize| #[trigger] r@.contains(s) <==> owned_support(owners@, representatives@, node, s),
{
    let mut all: Vec<usize> = Vec::new();
    match find_owner(owners, node) {
        None => {
        },
        Some(m) => {
            let mut o: usize = 0;
            while o < owners[m].surfaces.len()
                invariant
                    o <= owners@[m as int].surfaces@.len(),
                    all@.len() == o,
                    forall|k: int| 0 <= k < o ==> #[trigger] all@[k] == representatives@[owners@[m as int].surfaces@[k] as int],
                decreases owners@[m as int].surfaces@.len() - o,
            {
                all.push(representatives[owners[m].surfaces[o]]);
                o += 1;
            }
            proof {
                assert forall|s: usize| all@.contains(s) <==> owned_support(owners@, representatives@, node, s) by {
                    if all@.contains(s) {
                        let k = choose|k: int| 0 <= k < all@.len() && all@[k] == s;
                        assert(representatives@[owners@[m as int].surfaces@[k] as int] == s);
                    }
                    if owned_support(owners@, representatives@, node, s) {
                        let (n, k) = choose|n: int, k: int|
                            0 <= n < owners@.len() && owners@[n].node == node && 0 <= k < owners@[n].surfaces@.len()
                                && representatives@[#[trigger] owners@[n].surfaces@[k] as int] == s;
                        assert(owners@[n].node == owners@[m as int].node);
                        assert(n == m);
                        assert(all@[k] == s);
                    }
                }
            }
        },
    }
    unique_indices(all)
}

/// The supports that every node of a ring lies on, ascending.
#[verifier::loop_isolation(false)]
pub fn common_supports(ring: &Vec<u32>, owners: &Vec<NodeSurfaces>, representatives: &Vec<usize>) -> (r:
    Vec<usize>)
    requires
        owners_sorted(owners@),
        owners_in_range(owners@, representatives@.len() as int),
    ensures
        ascending_indices(r@),
        forall|s: usize| #[trigger]
            r@.contains(s) <==> common_to_ring(ring@, owners@, representatives@, s),
{
    if ring.len() == 0 {
        return Vec::new();
    }
    let mut common = supports_of(owners, representatives, ring[0]);
    proof {
        let single = ring@.take(1);
        assert forall|s: usize| #[trigger] common@.contains(s) <==> common_to_ring(single, owners@, representatives@, s) by {
            assert(single[0] == ring@[0]);
            if common_to_ring(single, owners@, representatives@, s) {
                assert(owned_support(owners@, representatives@, single[0], s));
            }
        }
    }
    let mut i: usize = 1;
    while i < ring.len()
        invariant
            1 <= i <= ring.len(),
            ascending_indices(common@),
            forall|s: usize| #[trigger]
                common@.contains(s) <==> common_to_ring(ring@.take(i as int), owners@, representatives@, s),
        decreases ring.len() - i,
    {
        let owned = supports_of(owners, representatives, ring[i]);
        let mut kept: Vec<usize> = Vec::new();
        let mut k: usize = 0;
        while k < common.len()
            invariant
                k <= common.len(),
                ascending_indices(kept@),
                forall|m: int| 0 <= m < kept@.len() ==> common@.contains(#[trigger] kept@[m]) && owned@.contains(kept@[m]),
                kept@.len() > 0 ==> k > 0 && kept@.last() <= common@[k - 1],
                forall|m: int| 0 <= m < k && owned@.contains(#[trigger] common@[m]) ==> kept@.contains(common@[m]),
            decreases common.len() - k,
        {
            let value: usize = common[k];
            let ghost before = kept@;
            if lists_index(&owned, value) {
                kept.push(value);
                assert(kept@[kept.len() - 1] == value);
            }
            proof {
                assert(common@.contains(common@[k as int]));
                assert forall|x: usize| before.contains(x) implies #[trigger] kept@.contains(x) by {
                    let m = choose|m: int| 0 <= m < before.len() && before[m] == x;
                    assert(kept@[m] == x);
                }
            }
            k += 1;
        }
        proof {
            let short = ring@.take(i as int);
            let long = ring@.take(i + 1);
            assert forall|s: usize| #[trigger] kept@.contains(s) <==> common_to_ring(long, owners@, representatives@, s) by {
                if kept@.contains(s) {
                    let m = choose|m: int| 0 <= m < kept@.len() && kept@[m] == s;
                    assert(common@.contains(kept@[m]));
                    assert(common_to_ring(short, owners@, representatives@, s));
                    assert forall|k: int| 0 <= k < long.len() implies owned_support(owners@, representatives@, #[trigger] long[k], s) by {
                        if k < short.len() {
                            assert(short[k] == long[k]);
                        }
                    }
                }
                if common_to_ring(long, owners@, representatives@, s) {
                    assert(owned_support(owners@, representatives@, long[i as int], s));
                    assert forall|k: int| 0 <= k < short.len() implies owned_support(owners@, representatives@, #[trigger] short[k], s) by {
                        assert(short[k] == long[k]);
                    }
                    assert(common@.contains(s));
                    let m = choose|m: int| 0 <= m < common@.len() && common@[m] == s;
                    assert(owned@.contains(common@[m]));
                }
            }
        }
        common = kept;
        i += 1;
    }
    assert(ring@.take(ring.len() as int) =~= ring@);
    common
}

/// What is measured of a hole node when its supports are met anew.
#[derive(Debug, Clone, Copy)]
pub struct NodeTrial {
    pub node: u32,
    /// Index of the node in the frame.
    pub index: usize,
    /// Whether the node has a closed position.
    pub closed: bool,
    /// Where the supports of the node meet.
    pub target: Option<Point>,
    pub from_current: Scalar,
    pub from_candidate: Scalar,
    pub from_reference: Scalar,
    /// Movement that the node's budget allows from its source.
    pub allowance: Scalar,
}

pub open spec fn anchors_axis(axes: Seq<Axis>, index: usize) -> bool {
    exists|a: int, k: int|
        0 <= a < axes.len() && 0 <= k < axes[a].anchors@.len() && (#[trigger] axes[a].anchors@[k]).node
            == index
}

#[verifier::loop_isolation(false)]
fn is_anchor(axes: &Vec<Axis>, index: usize) -> (r: bool)
    ensures
        r == anchors_axis(axes@, index),
{
    let mut a: usize = 0;
    while a < axes.len()
        invariant
            a <= axes.len(),
            forall|b: int, k: int|
                0 <= b < a && 0 <= k < axes@[b].anchors@.len() ==> (#[trigger] axes@[b].anchors@[k]).node != index,
        decreases axes.len() - a,
    {
        let mut k: usize = 0;
        while k < axes[a].anchors.len()
            invariant
                a < axes.len(),
                k <= axes@[a as int].anchors@.len(),
                forall|l: int| 0 <= l < k ==> (#[trigger] axes@[a as int].anchors@[l]).node != index,
            decreases axes@[a as int].anchors@.len() - k,
        {
            if axes[a].anchors[k].node == index {
                assert(axes@[a as int].anchors@[k as int].node == index);
                return true;
            }
            k += 1;
        }
        a += 1;
    }
    false
}

/// Why a hole node cannot be put where its supports meet.
pub open spec fn trial_failure(trial: NodeTrial, axes: Seq<Axis>, policy: Policy) -> Option<HoleOutcome> {
    if !trial.closed {
        Some(HoleOutcome::MissingClosedVertex)
    } else if trial.target is None {
        Some(HoleOutcome::IncompatibleSupports)
    } else if policy.junction_movement_limit.lt(trial.from_candidate) || trial.allowance.lt(
        trial.from_reference,
    ) {
        Some(HoleOutcome::MovementBudget)
    } else if policy.precision.lt(trial.from_current) && anchors_axis(axes, trial.index) {
        Some(HoleOutcome::AxisAnchorRequiresJointRepair)
    } else {
        None
    }
}

pub open spec fn first_trial_failure(
    trials: Seq<NodeTrial>,
    axes: Seq<Axis>,
    policy: Policy,
    from: int,
) -> Option<HoleOutcome>
    decreases trials.len() - from,
{
    if from >= trials.len() {
        None
    } else {
        match trial_failure(trials[from], axes, policy) {
            Some(outcome) => Some(outcome),
            None => first_trial_failure(trials, axes, policy, from + 1),
        }
    }
}

/// The openings of a region cannot be restored, and why.
pub open spec fn hole_failure(
    source_valid: bool,
    constraints: Seq<HoleConstraint>,
    trials: Seq<NodeTrial>,
    axes: Seq<Axis>,
    policy: Policy,
) -> Option<HoleOutcome> {
    if !source_valid {
        Some(HoleOutcome::InvalidSourceContours)
    } else if exists|h: int|
        0 <= h < constraints.len() && (#[trigger] constraints[h]).normal_rank >= 2 {
        Some(HoleOutcome::CommonSupportsForceLineOrPoint)
    } else {
        first_trial_failure(trials, axes, policy, 0)
    }
}

fn trial_outcome(trial: &NodeTrial, axes: &Vec<Axis>, policy: &Policy) -> (r: Option<HoleOutcome>)
    ensures
        r == trial_failure(*trial, axes@, *policy),
{
    if !trial.closed {
        Some(HoleOutcome::MissingClosedVertex)
    } else if trial.target.is_none() {
        Some(HoleOutcome::IncompatibleSupports)
    } else if policy.junction_movement_limit.less(&trial.from_candidate) || trial.allowance.less(
        &trial.from_reference,
    ) {
        Some(HoleOutcome::MovementBudget)
    } else if policy.precision.less(&trial.from_current) && is_anchor(axes, trial.index) {
        Some(HoleOutcome::AxisAnchorRequiresJointRepair)
    } else {
        None
    }
}

proof fn no_failure(trials: Seq<NodeTrial>, axes: Seq<Axis>, policy: Policy, from: int, k: int)
    requires
        0 <= from <= k < trials.len(),
        first_trial_failure(trials, axes, policy, from) is None,
    ensures
        trial_failure(trials[k], axes, policy) is None,
    decreases trials.len() - from,
{
    if from < k {
        no_failure(trials, axes, policy, from + 1, k);
    }
}

fn assess(
    source_valid: bool,
    constraints: &Vec<HoleConstraint>,
    trials: &Vec<NodeTrial>,
    axes: &Vec<Axis>,
    policy: &Policy,
) -> (r: Option<HoleOutcome>)
    ensures
        r == hole_failure(source_valid, constraints@, trials@, axes@, *policy),
{
    if !source_valid {
        return Some(HoleOutcome::InvalidSourceContours);
    }
    let mut h: usize = 0;
    while h < constraints.len()
        invariant
            source_valid,
            h <= constraints.len(),
            forall|g: int| 0 <= g < h ==> (#[trigger] constraints@[g]).normal_rank < 2,
        decreases constraints.len() - h,
    {
        if constraints[h].normal_rank >= 2 {
            return Some(HoleOutcome::CommonSupportsForceLineOrPoint);
        }
        h += 1;
    }
    let mut i: usize = 0;
    while i < trials.len()
        invariant
            source_valid,
            forall|g: int| 0 <= g < constraints@.len() ==> (#[trigger] constraints@[g]).normal_rank < 2,
            i <= trials.len(),
            first_trial_failure(trials@, axes@, *policy, 0) == first_trial_failure(trials@, axes@, *policy, i as int),
        decreases trials.len() - i,
    {
        match trial_outcome(&trials[i], axes, policy) {
            Some(outcome) => {
                return Some(outcome);
            },
            None => {
            },
        }
        i += 1;
    }
    None
}

/// The rings of a region: the exterior, then its holes.
#[derive(Debug)]
pub struct RegionRings {
    pub region: usize,
    pub loops: Vec<Vec<u32>>,
}

pub open spec fn rings_contain(rings: RegionRings, node: u32) -> bool {
    exists|l: int| 0 <= l < rings.loops@.len() && (#[trigger] rings.loops@[l])@.contains(node)
}

/// A contour of the region passes through one of the nodes.
pub open spec fn rings_meet(rings: RegionRings, nodes: Seq<u32>) -> bool {
    exists|k: int| 0 <= k < nodes.len() && rings_contain(rings, #[trigger] nodes[k])
}

/// Positions that would restore the openings of one region.
#[derive(Debug)]
pub struct Attempt {
    pub report: usize,
    pub nodes: Vec<u32>,
    pub targets: Vec<Point>,
    /// Regions with a contour through a node that is moved.
    pub affected: Vec<usize>,
}

pub open spec fn last_trial(trials: Seq<NodeTrial>, node: u32, i: int) -> bool {
    &&& 0 <= i < trials.len()
    &&& trials[i].node == node
    &&& forall|j: int| i < j < trials.len() ==> (#[trigger] trials[j]).node != node
}

pub open spec fn desired_of(nodes: Seq<u32>, targets: Seq<Point>, trials: Seq<NodeTrial>) -> bool {
    &&& ascending(nodes)
    &&& targets.len() == nodes.len()
    &&& forall|node: u32| #[trigger]
        nodes.contains(node) <==> exists|i: int| 0 <= i < trials.len() && (#[trigger] trials[i]).node == node
    &&& forall|k: int, i: int|
        0 <= k < nodes.len() && last_trial(trials, nodes[k], i) ==> (#[trigger] trials[i]).target == Some(
            #[trigger] targets[k],
        )
}

/// A region among the first ones with a contour through one of the nodes.
pub open spec fn met_before(rings: Seq<RegionRings>, nodes: Seq<u32>, upto: int, region: usize) -> bool {
    exists|i: int|
        0 <= i < upto && (#[trigger] rings[i]).region == region && rings_meet(rings[i], nodes)
}

pub open spec fn affected_by(affected: Seq<usize>, rings: Seq<RegionRings>, nodes: Seq<u32>) -> bool {
    &&& ascending_indices(affected)
    &&& forall|r: usize| #[trigger]
        affected.contains(r) <==> met_before(rings, nodes, rings.len() as int, r)
}

#[verifier::loop_isolation(false)]
fn meets_nodes(rings: &RegionRings, nodes: &Vec<u32>) -> (r: bool)
    requires
        ascending(nodes@),
    ensures
        r == rings_meet(*rings, nodes@),
{
    let mut l: usize = 0;
    while l < rings.loops.len()
        invariant
            l <= rings.loops.len(),
            forall|m: int, k: int|
                0 <= m < l && 0 <= k < nodes@.len() ==> !(#[trigger] rings.loops@[m])@.contains(#[trigger] nodes@[k]),
        decreases rings.loops.len() - l,
    {
        let mut k: usize = 0;
        while k < nodes.len()
            invariant
                l < rings.loops.len(),
                k <= nodes.len(),
                forall|n: int| 0 <= n < k ==> !rings.loops@[l as int]@.contains(#[trigger] nodes@[n]),
            decreases nodes.len() - k,
        {
            if lists_id(&rings.loops[l], nodes[k]) {
                assert(rings.loops@[l as int]@.contains(nodes@[k as int]));
                assert(rings_contain(*rings, nodes@[k as int]));
                return true;
            }
            k += 1;
        }
        l += 1;
    }
    proof {
        if rings_meet(*rings, nodes@) {
            let k = choose|k: int| 0 <= k < nodes@.len() && rings_contain(*rings, #[trigger] nodes@[k]);
            let m = choose|m: int| 0 <= m < rings.loops@.len() && (#[trigger] rings.loops@[m])@.contains(nodes@[k]);
            assert(!rings.loops@[m]@.contains(nodes@[k]));
        }
    }
    false
}

/// The regions whose contours pass through the nodes, ascending.
#[verifier::loop_isolation(false)]
pub fn affected_regions(rings: &Vec<RegionRings>, nodes: &Vec<u32>) -> (r: Vec<usize>)
    requires
        ascending(nodes@),
    ensures
        affected_by(r@, rings@, nodes@),
{
    let mut all: Vec<usize> = Vec::new();
    let mut i: usize = 0;
    while i < rings.len()
        invariant
            i <= rings.len(),
            forall|k: int| 0 <= k < all@.len() ==> met_before(rings@, nodes@, i as int, #[trigger] all@[k]),
            forall|j: int| 0 <= j < i && rings_meet(#[trigger] rings@[j], nodes@) ==> all@.contains(rings@[j].region),
        decreases rings.len() - i,
    {
        let ghost before = all@;
        if meets_nodes(&rings[i], nodes) {
            all.push(rings[i].region);
            assert(all@[all.len() - 1] == rings@[i as int].region);
        }
        proof {
            assert forall|x: usize| before.contains(x) implies #[trigger] all@.contains(x) by {
                let m = choose|m: int| 0 <= m < before.len() && before[m] == x;
                assert(all@[m] == x);
            }
            assert forall|k: int| 0 <= k < all@.len() implies met_before(rings@, nodes@, i + 1, #[trigger] all@[k]) by {
                if k < before.len() {
                    assert(met_before(rings@, nodes@, i as int, before[k]));
                } else {
                    assert(rings@[i as int].region == all@[k]);
                }
            }
        }
        i += 1;
    }
    let ghost listed = all@;
    let r = unique_indices(all);
    proof {
        assert forall|x: usize| #[trigger] r@.contains(x) <==> met_before(rings@, nodes@, rings@.len() as int, x) by {
            assert(r@.contains(x) <==> listed.contains(x));
            if listed.contains(x) {
                let k = choose|k: int| 0 <= k < listed.len() && listed[k] == x;
                assert(met_before(rings@, nodes@, i as int, listed[k]));
            }
        }
    }
    r
}

#[verifier::loop_isolation(false)]
fn desired(trials: &Vec<NodeTrial>, axes: &Vec<Axis>, policy: &Policy) -> (r: (Vec<u32>, Vec<Point>))
    requires
        first_trial_failure(trials@, axes@, *policy, 0) is None,
    ensures
        desired_of(r.0@, r.1@, trials@),
{
    let mut all: Vec<u32> = Vec::new();
    let mut last = Registry::new();
    let mut i: usize = 0;
    while i < trials.len()
        invariant
            i <= trials.len(),
            all@.len() == i,
            forall|j: int| 0 <= j < i ==> #[trigger] all@[j] == trials@[j].node,
            forall|x: u32| #[trigger]
                last@.dom().contains(x as u64) ==> last_trial(trials@.take(i as int), x, last@[x as u64] as int),
            forall|j: int| 0 <= j < i ==> last@.dom().contains((#[trigger] trials@[j]).node as u64),
        decreases trials.len() - i,
    {
        let ghost before = last@;
        all.push(trials[i].node);
        last.insert(trials[i].node as u64, i);
        proof {
            let short = trials@.take(i as int);
            let long = trials@.take(i + 1);
            assert forall|x: u32| #[trigger] last@.dom().contains(x as u64) implies last_trial(long, x, last@[x as u64] as int) by {
                if x != trials@[i as int].node {
                    assert(before.dom().contains(x as u64));
                    let k = before[x as u64] as int;
                    assert(last_trial(short, x, k));
                    assert(long[k] == short[k]);
                    assert forall|j: int| k < j < long.len() implies (#[trigger] long[j]).node != x by {
                        if j < short.len() {
                            assert(short[j] == long[j]);
                        }
                    }
                }
            }
        }
        i += 1;
    }
    assert(trials@.take(trials.len() as int) =~= trials@);
    let ghost listed = all@;
    let nodes = unique(all);
    let mut targets: Vec<Point> = Vec::new();
    let mut k: usize = 0;
    while k < nodes.len()
        invariant
            k <= nodes.len(),
            targets.len() == k,
            forall|m: int, j: int|
                0 <= m < k && last_trial(trials@, nodes@[m], j) ==> (#[trigger] trials@[j]).target == Some(#[trigger] targets@[m]),
        decreases nodes.len() - k,
    {
        let node: u32 = nodes[k];
        proof {
            assert(nodes@.contains(node));
            assert(listed.contains(node));
            let j = choose|j: int| 0 <= j < listed.len() && listed[j] == node;
            assert(last@.dom().contains(trials@[j].node as u64));
        }
        match last.get(node as u64) {
            Some(j) => {
                proof {
                    assert(last_trial(trials@, node, j as int));
                    no_failure(trials@, axes@, *policy, 0, j as int);
                }
                match trials[j].target {
                    Some(target) => {
                        targets.push(target);
                    },
                    None => {
                        assert(false);
                    },
                }
            },
            None => {
                assert(false);
            },
        }
        k += 1;
    }
    proof {
        assert forall|node: u32| #[trigger] nodes@.contains(node) <==> exists|j: int| 0 <= j < trials@.len() && (#[trigger] trials@[j]).node == node by {
            assert(nodes@.contains(node) <==> listed.contains(node));
            if listed.contains(node) {
                let j = choose|j: int| 0 <= j < listed.len() && listed[j] == node;
                assert(trials@[j].node == node);
            }
            if exists|j: int| 0 <= j < trials@.len() && (#[trigger] trials@[j]).node == node {
                let j = choose|j: int| 0 <= j < trials@.len() && (#[trigger] trials@[j]).node == node;
                assert(listed[j] == node);
            }
        }
    }
    (nodes, targets)
}

/// The positions of a table after the attempts of a group.
pub open spec fn with_attempts(
    points: Map<u32, Point>,
    attempts: Seq<Attempt>,
    group: Seq<usize>,
    upto: int,
) -> Map<u32, Point>
    decreases upto,
{
    if upto <= 0 {
        points
    } else {
        let attempt = attempts[group[upto - 1] as int];
        with_targets(
            with_attempts(points, attempts, group, upto - 1),
            attempt.nodes@,
            attempt.targets@,
            attempt.nodes@.len() as int,
        )
    }
}

pub open spec fn with_targets(
    points: Map<u32, Point>,
    nodes: Seq<u32>,
    targets: Seq<Point>,
    upto: int,
) -> Map<u32, Point>
    decreases upto,
{
    if upto <= 0 {
        points
    } else {
        with_targets(points, nodes, targets, upto - 1).insert(nodes[upto - 1], targets[upto - 1])
    }
}

/// The changes that an attempt makes: the targets that differ from where the
/// nodes are.
pub open spec fn changes_to(
    points: Map<u32, Point>,
    nodes: Seq<u32>,
    targets: Seq<Point>,
    upto: int,
) -> Seq<HoleNodeChange>
    decreases upto,
{
    if upto <= 0 {
        Seq::empty()
    } else {
        let rest = changes_to(points, nodes, targets, upto - 1);
        let node = nodes[upto - 1];
        if same_position(targets[upto - 1], points[node]) {
            rest
        } else {
            rest.push(
                HoleNodeChange { source_node: node, before: points[node], after: targets[upto - 1] },
            )
        }
    }
}

/// Openings under recovery, with the positions they are recovered in.
#[derive(Debug)]
pub struct Recovery {
    pub reports: Vec<HoleRecovery>,
    pub attempts: Vec<Attempt>,
    pub points: PointTable,
}

pub open spec fn attempt_sound(attempt: Attempt, reports: int, points: Map<u32, Point>) -> bool {
    &&& attempt.report < reports
    &&& attempt.targets@.len() == attempt.nodes@.len()
    &&& forall|k: int|
        0 <= k < attempt.nodes@.len() ==> points.dom().contains(#[trigger] attempt.nodes@[k])
}

/// A report under the changed positions: restored where the group holds its
/// attempt, as it was elsewhere.
pub open spec fn report_settled(
    before: Recovery,
    report: HoleRecovery,
    r: int,
    group: Seq<usize>,
) -> bool {
    &&& report.patch == before.reports@[r].patch
    &&& report.source_elements == before.reports@[r].source_elements
    &&& report.constraints == before.reports@[r].constraints
    &&& forall|k: int|
        0 <= k < group.len() && before.attempts@[#[trigger] group[k] as int].report == r ==> {
            &&& report.outcome == HoleOutcome::Restored
            &&& report.changes@ == changes_to(
                before.points@,
                before.attempts@[group[k] as int].nodes@,
                before.attempts@[group[k] as int].targets@,
                before.attempts@[group[k] as int].nodes@.len() as int,
            )
        }
    &&& (forall|k: int|
        0 <= k < group.len() ==> before.attempts@[#[trigger] group[k] as int].report != r) ==> report
        == before.reports@[r]
}

impl Recovery {
    pub open spec fn well_formed(&self) -> bool {
        &&& forall|i: int|
            0 <= i < self.attempts@.len() ==> attempt_sound(
                #[trigger] self.attempts@[i],
                self.reports@.len() as int,
                self.points@,
            )
        &&& forall|i: int, j: int|
            0 <= i < j < self.attempts@.len() ==> (#[trigger] self.attempts@[i]).report < (
            #[trigger] self.attempts@[j]).report
    }

    pub fn new(points: PointTable) -> (r: Recovery)
        ensures
            r.well_formed(),
            r.reports@.len() == 0,
            r.attempts@.len() == 0,
            r.points@ == points@,
    {
        Recovery { reports: Vec::new(), attempts: Vec::new(), points }
    }

    /// Assesses the openings of a region whose contours are not valid as they
    /// stand: either they are reported with the reason, or an attempt at them is
    /// kept and they count as in conflict until it is settled.
    pub fn propose(
        &mut self,
        patch: usize,
        source_elements: Vec<u32>,
        constraints: Vec<HoleConstraint>,
        source_valid: bool,
        trials: &Vec<NodeTrial>,
        rings: &Vec<RegionRings>,
        axes: &Vec<Axis>,
        policy: &Policy,
    )
        requires
            old(self).well_formed(),
            forall|i: int|
                0 <= i < trials@.len() && (#[trigger] trials@[i]).closed ==> old(self).points@.dom().contains(
                    trials@[i].node,
                ),
        ensures
            final(self).well_formed(),
            final(self).points@ == old(self).points@,
            final(self).reports@.len() == old(self).reports@.len() + 1,
            final(self).reports@.drop_last() == old(self).reports@,
            final(self).reports@.last().patch == patch,
            final(self).reports@.last().source_elements == source_elements,
            final(self).reports@.last().constraints == constraints,
            final(self).reports@.last().changes@.len() == 0,
            match hole_failure(source_valid, constraints@, trials@, axes@, *policy) {
                Some(outcome) => final(self).reports@.last().outcome == outcome
                    && final(self).attempts@ == old(self).attempts@,
                None => {
                    &&& final(self).reports@.last().outcome == HoleOutcome::ContourConflict
                    &&& final(self).attempts@.len() == old(self).attempts@.len() + 1
                    &&& final(self).attempts@.drop_last() == old(self).attempts@
                    &&& final(self).attempts@.last().report == old(self).reports@.len()
                    &&& desired_of(
                        final(self).attempts@.last().nodes@,
                        final(self).attempts@.last().targets@,
                        trials@,
                    )
                    &&& affected_by(
                        final(self).attempts@.last().affected@,
                        rings@,
                        final(self).attempts@.last().nodes@,
                    )
                },
            },
    {
        let outcome = match assess(source_valid, &constraints, trials, axes, policy) {
            Some(outcome) => outcome,
            None => {
                let (nodes, targets) = desired(trials, axes, policy);
                let affected = affected_regions(rings, &nodes);
                let attempt = Attempt { report: self.reports.len(), nodes, targets, affected };
                proof {
                    assert forall|k: int| 0 <= k < attempt.nodes@.len() implies self.points@.dom().contains(#[trigger] attempt.nodes@[k]) by {
                        let node = attempt.nodes@[k];
                        assert(attempt.nodes@.contains(node));
                        let i = choose|i: int| 0 <= i < trials@.len() && (#[trigger] trials@[i]).node == node;
                        no_failure(trials@, axes@, *policy, 0, i);
                    }
                }
                self.attempts.push(attempt);
                assert(self.attempts@.drop_last() =~= old(self).attempts@);
                HoleOutcome::ContourConflict
            },
        };
        let changes: Vec<HoleNodeChange> = Vec::new();
        self.reports.push(HoleRecovery { patch, source_elements, outcome, constraints, changes });
        assert(self.reports@.drop_last() =~= old(self).reports@);
    }

    /// The attempts that affect a common contour, which are validated and
    /// settled together.
    #[verifier::loop_isolation(false)]
    pub fn groups(&self) -> (groups: Vec<Vec<usize>>)
        ensures
            exists|labels: Seq<Vec<u64>>| #[trigger]
                affected_labels(labels, self.attempts@) && components_of(
                    groups@,
                    self.attempts@.len() as int,
                    share_label(labels),
                ),
    {
        let mut labels: Vec<Vec<u64>> = Vec::new();
        let mut i: usize = 0;
        while i < self.attempts.len()
            invariant
                i <= self.attempts.len(),
                labels.len() == i,
                forall|j: int| 0 <= j < i ==> numbers_of(#[trigger] labels@[j]@, self.attempts@[j].affected@),
            decreases self.attempts.len() - i,
        {
            let mut list: Vec<u64> = Vec::new();
            let mut k: usize = 0;
            while k < self.attempts[i].affected.len()
                invariant
                    i < self.attempts.len(),
                    k <= self.attempts@[i as int].affected@.len(),
                    list.len() == k,
                    forall|m: int| 0 <= m < k ==> #[trigger] list@[m] == self.attempts@[i as int].affected@[m],
                decreases self.attempts@[i as int].affected@.len() - k,
            {
                list.push(self.attempts[i].affected[k] as u64);
                k += 1;
            }
            labels.push(list);
            i += 1;
        }
        assert(affected_labels(labels@, self.attempts@));
        linked_groups(&labels)
    }

    /// Where a node would be after the attempts of a group.
    #[verifier::loop_isolation(false)]
    pub fn proposed(&self, group: &Vec<usize>, node: u32) -> (r: Option<Point>)
        requires
            self.well_formed(),
            forall|k: int| 0 <= k < group@.len() ==> #[trigger] group@[k] < self.attempts@.len(),
        ensures
            ({
                let after = with_attempts(self.points@, self.attempts@, group@, group@.len() as int);
                r == if after.dom().contains(node) {
                    Some(after[node])
                } else {
                    None
                }
            }),
    {
        let mut r = self.points.get(node);
        let mut k: usize = 0;
        while k < group.len()
            invariant
                k <= group.len(),
                ({
                    let after = with_attempts(self.points@, self.attempts@, group@, k as int);
                    r == if after.dom().contains(node) {
                        Some(after[node])
                    } else {
                        None
                    }
                }),
            decreases group.len() - k,
        {
            let i: usize = group[k];
            assert(attempt_sound(self.attempts@[i as int], self.reports@.len() as int, self.points@));
            let mut m: usize = 0;
            while m < self.attempts[i].nodes.len()
                invariant
                    i < self.attempts.len(),
                    i == group@[k as int],
                    self.attempts@[i as int].targets@.len() == self.attempts@[i as int].nodes@.len(),
                    m <= self.attempts@[i as int].nodes@.len(),
                    ({
                        let after = with_targets(
                            with_attempts(self.points@, self.attempts@, group@, k as int),
                            self.attempts@[i as int].nodes@,
                            self.attempts@[i as int].targets@,
                            m as int,
                        );
                        r == if after.dom().contains(node) {
                            Some(after[node])
                        } else {
                            None
                        }
                    }),
                decreases self.attempts@[i as int].nodes@.len() - m,
            {
                if self.attempts[i].nodes[m] == node {
                    r = Some(self.attempts[i].targets[m]);
                }
                m += 1;
            }
            k += 1;
        }
        r
    }

    #[verifier::loop_isolation(false)]
    fn changes(&self, i: usize) -> (r: Vec<HoleNodeChange>)
        requires
            self.well_formed(),
            i < self.attempts@.len(),
        ensures
            r@ == changes_to(
                self.points@,
                self.attempts@[i as int].nodes@,
                self.attempts@[i as int].targets@,
                self.attempts@[i as int].nodes@.len() as int,
            ),
    {
        assert(attempt_sound(self.attempts@[i as int], self.reports@.len() as int, self.points@));
        let mut r: Vec<HoleNodeChange> = Vec::new();
        let mut m: usize = 0;
        while m < self.attempts[i].nodes.len()
            invariant
                m <= self.attempts@[i as int].nodes@.len(),
                r@ == changes_to(self.points@, self.attempts@[i as int].nodes@, self.attempts@[i as int].targets@, m as int),
            decreases self.attempts@[i as int].nodes@.len() - m,
        {
            let node: u32 = self.attempts[i].nodes[m];
            let after: Point = self.attempts[i].targets[m];
            assert(self.points@.dom().contains(self.attempts@[i as int].nodes@[m as int]));
            match self.points.get(node) {
                Some(before) => {
                    if !is_same_position(&after, &before) {
                        r.push(HoleNodeChange { source_node: node, before, after });
                    }
                },
                None => {
                    assert(false);
                },
            }
            m += 1;
        }
        r
    }

    /// Settles a group: where every contour that it affects is valid under the
    /// proposed positions, they are taken over and the openings are restored;
    /// else nothing changes.
    #[verifier::loop_isolation(false)]
    pub fn settle(&mut self, group: &Vec<usize>, valid: bool)
        requires
            old(self).well_formed(),
            forall|k: int| 0 <= k < group@.len() ==> #[trigger] group@[k] < old(self).attempts@.len(),
        ensures
            final(self).well_formed(),
            final(self).attempts == old(self).attempts,
            !valid ==> *final(self) == *old(self),
            valid ==> final(self).points@ == with_attempts(
                old(self).points@,
                old(self).attempts@,
                group@,
                group@.len() as int,
            ),
            valid ==> final(self).reports@.len() == old(self).reports@.len(),
            valid ==> forall|r: int|
                0 <= r < old(self).reports@.len() ==> report_settled(
                    *old(self),
                    #[trigger] final(self).reports@[r],
                    r,
                    group@,
                ),
    {
        if !valid {
            return;
        }
        let ghost start = *self;
        let mut k: usize = 0;
        while k < group.len()
            invariant
                k <= group.len(),
                self.attempts == start.attempts,
                self.points@ == start.points@,
                self.reports@.len() == start.reports@.len(),
                forall|r: int|
                    0 <= r < start.reports@.len() ==> report_settled(
                        start,
                        #[trigger] self.reports@[r],
                        r,
                        group@.take(k as int),
                    ),
            decreases group.len() - k,
        {
            let i: usize = group[k];
            assert(start.attempts@[i as int] == self.attempts@[i as int]);
            assert(attempt_sound(start.attempts@[i as int], start.reports@.len() as int, start.points@));
            let changes = self.changes(i);
            let mut report = self.reports.remove(self.attempts[i].report);
            report.outcome = HoleOutcome::Restored;
            report.changes = changes;
            let ghost middle = self.reports@;
            self.reports.insert(self.attempts[i].report, report);
            proof {
                let short = group@.take(k as int);
                let long = group@.take(k + 1);
                let here = start.attempts@[i as int].report as int;
                assert forall|r: int| 0 <= r < start.reports@.len() implies report_settled(start, #[trigger] self.reports@[r], r, long) by {
                    assert forall|m: int| 0 <= m < long.len() && start.attempts@[#[trigger] long[m] as int].report == r implies
                        self.reports@[r].outcome == HoleOutcome::Restored && self.reports@[r].changes@ == changes_to(
                            start.points@,
                            start.attempts@[long[m] as int].nodes@,
                            start.attempts@[long[m] as int].targets@,
                            start.attempts@[long[m] as int].nodes@.len() as int,
                        ) by {
                        if m < k {
                            assert(short[m] == long[m]);
                            if r == here {
                                assert(long[m] == i) by {
                                    if long[m] < i {
                                        assert(start.attempts@[long[m] as int].report < start.attempts@[i as int].report);
                                    } else if i < long[m] {
                                        assert(start.attempts@[i as int].report < start.attempts@[long[m] as int].report);
                                    }
                                }
                            }
                        }
                    }
                    if forall|m: int| 0 <= m < long.len() ==> start.attempts@[#[trigger] long[m] as int].report != r {
                        assert(long[k as int] == i);
                        assert forall|m: int| 0 <= m < short.len() implies start.attempts@[#[trigger] short[m] as int].report != r by {
                            assert(long[m] == short[m]);
                        }
                    }
                }
            }
            k += 1;
        }
        assert(group@.take(group.len() as int) =~= group@);
        let ghost settled = self.reports@;
        let mut k: usize = 0;
        while k < group.len()
            invariant
                k <= group.len(),
                self.attempts == start.attempts,
                self.reports@ == settled,
                self.points@ == with_attempts(start.points@, start.attempts@, group@, k as int),
                forall|x: u32| start.points@.dom().contains(x) ==> #[trigger] self.points@.dom().contains(x),
            decreases group.len() - k,
        {
            let i: usize = group[k];
            assert(attempt_sound(start.attempts@[i as int], start.reports@.len() as int, start.points@));
            let mut m: usize = 0;
            while m < self.attempts[i].nodes.len()
                invariant
                    i == group@[k as int],
                    self.attempts == start.attempts,
                    self.reports@ == settled,
                    m <= start.attempts@[i as int].nodes@.len(),
                    self.points@ == with_targets(
                        with_attempts(start.points@, start.attempts@, group@, k as int),
                        start.attempts@[i as int].nodes@,
                        start.attempts@[i as int].targets@,
                        m as int,
                    ),
                    forall|x: u32| start.points@.dom().contains(x) ==> #[trigger] self.points@.dom().contains(x),
                decreases start.attempts@[i as int].nodes@.len() - m,
            {
                self.points.insert(self.attempts[i].nodes[m], self.attempts[i].targets[m]);
                m += 1;
            }
            k += 1;
        }
        assert forall|i: int| 0 <= i < self.attempts@.len() implies attempt_sound(#[trigger] self.attempts@[i], self.reports@.len() as int, self.points@) by {
            assert(attempt_sound(start.attempts@[i], start.reports@.len() as int, start.points@));
        }
    }
}

pub open spec fn numbers_of(labels: Seq<u64>, indices: Seq<usize>) -> bool {
    &&& labels.len() == indices.len()
    &&& forall|k: int| 0 <= k < indices.len() ==> #[trigger] labels[k] == indices[k]
}

pub open spec fn affected_labels(labels: Seq<Vec<u64>>, attempts: Seq<Attempt>) -> bool {
    &&& labels.len() == attempts.len()
    &&& forall|i: int|
        0 <= i < attempts.len() ==> numbers_of(#[trigger] labels[i]@, attempts[i].affected@)
}

/// A node that no attempt of a group moves stays where it was.
pub proof fn untouched_nodes_stay(
    points: Map<u32, Point>,
    attempts: Seq<Attempt>,
    group: Seq<usize>,
    upto: int,
    node: u32,
)
    requires
        0 <= upto <= group.len(),
        forall|k: int|
            0 <= k < group.len() ==> !attempts[#[trigger] group[k] as int].nodes@.contains(node),
    ensures
        with_attempts(points, attempts, group, upto).dom().contains(node) <==> points.dom().contains(node),
        points.dom().contains(node) ==> with_attempts(points, attempts, group, upto)[node] == points[node],
    decreases upto,
{
    if upto > 0 {
        untouched_nodes_stay(points, attempts, group, upto - 1, node);
        let attempt = attempts[group[upto - 1] as int];
        untouched_by_targets(
            with_attempts(points, attempts, group, upto - 1),
            attempt.nodes@,
            attempt.targets@,
            attempt.nodes@.len() as int,
            node,
        );
    }
}

proof fn untouched_by_targets(
    points: Map<u32, Point>,
    nodes: Seq<u32>,
    targets: Seq<Point>,
    upto: int,
    node: u32,
)
    requires
        0 <= upto <= nodes.len(),
        !nodes.contains(node),
    ensures
        with_targets(points, nodes, targets, upto).dom().contains(node) <==> points.dom().contains(node),
        points.dom().contains(node) ==> with_targets(points, nodes, targets, upto)[node] == points[node],
    decreases upto,
{
    if upto > 0 {
        untouched_by_targets(points, nodes, targets, upto - 1, node);
        assert(nodes[upto - 1] != node);
    }
}

/// A node can be put where its supports meet exactly when it is closed, they do meet, the
/// movement stays within both budgets, and no axis that it anchors would have to follow.
pub proof fn trials_succeed_within_budget(trial: NodeTrial, axes: Seq<Axis>, policy: Policy)
    ensures
        trial_failure(trial, axes, policy) is None <==> trial.closed && trial.target is Some && !policy.junction_movement_limit.lt(
            trial.from_candidate,
        ) && !trial.allowance.lt(trial.from_reference) && (!policy.precision.lt(trial.from_current) || !anchors_axis(axes, trial.index)),
        !trial.closed ==> trial_failure(trial, axes, policy) == Some(HoleOutcome::MissingClosedVertex),
        trial_failure(trial, axes, policy) == Some(HoleOutcome::MovementBudget) ==> policy.junction_movement_limit.lt(
            trial.from_candidate,
        ) || trial.allowance.lt(trial.from_reference),
        trial_failure(trial, axes, policy) != Some(HoleOutcome::Restored),
{
}

proof fn trials_fail_together(trials: Seq<NodeTrial>, axes: Seq<Axis>, policy: Policy, from: int)
    requires
        0 <= from <= trials.len(),
    ensures
        first_trial_failure(trials, axes, policy, from) is None <==> forall|k: int|
            from <= k < trials.len() ==> trial_failure(#[trigger] trials[k], axes, policy) is None,
    decreases trials.len() - from,
{
    if from < trials.len() {
        trials_fail_together(trials, axes, policy, from + 1);
        if first_trial_failure(trials, axes, policy, from) is None {
            assert forall|k: int| from <= k < trials.len() implies trial_failure(#[trigger] trials[k], axes, policy) is None by {
                if k > from {
                    assert(trial_failure(trials[k], axes, policy) is None);
                }
            }
        }
    }
}

/// The openings of a region are tried exactly when the source is valid, no hole is held to a
/// line or a point, and every node can be put where its supports meet.
pub proof fn openings_are_tried_whole(
    source_valid: bool,
    constraints: Seq<HoleConstraint>,
    trials: Seq<NodeTrial>,
    axes: Seq<Axis>,
    policy: Policy,
)
    ensures
        hole_failure(source_valid, constraints, trials, axes, policy) is None <==> source_valid && (forall|h: int|
            0 <= h < constraints.len() ==> (#[trigger] constraints[h]).normal_rank < 2) && (forall|k: int|
            0 <= k < trials.len() ==> trial_failure(#[trigger] trials[k], axes, policy) is None),
        !source_valid ==> hole_failure(source_valid, constraints, trials, axes, policy) == Some(HoleOutcome::InvalidSourceContours),
{
    trials_fail_together(trials, axes, policy, 0);
}

/// A node is moved to its target, and one that is no target stays.
pub proof fn targets_are_reached(points: Map<u32, Point>, nodes: Seq<u32>, targets: Seq<Point>, upto: int, k: int, node: u32)
    requires
        nodes.no_duplicates(),
        targets.len() == nodes.len(),
        0 <= k < upto <= nodes.len(),
    ensures
        with_targets(points, nodes, targets, upto).dom().contains(nodes[k]),
        with_targets(points, nodes, targets, upto)[nodes[k]] == targets[k],
        !nodes.contains(node) ==> with_targets(points, nodes, targets, upto)[node] == points[node] && (with_targets(
            points,
            nodes,
            targets,
            upto,
        ).dom().contains(node) <==> points.dom().contains(node)),
    decreases upto,
{
    if k < upto - 1 {
        targets_are_reached(points, nodes, targets, upto - 1, k, node);
        assert(nodes[upto - 1] != nodes[k]);
    } else if upto > 1 {
        targets_are_reached(points, nodes, targets, upto - 1, 0, node);
    } else {
        assert(with_targets(points, nodes, targets, 0) == points);
    }
    assert(nodes.contains(nodes[upto - 1]));
}

/// A change is on record exactly for a node whose target is elsewhere, from where it was to the
/// target.
pub proof fn moves_are_on_record(points: Map<u32, Point>, nodes: Seq<u32>, targets: Seq<Point>, upto: int, change: HoleNodeChange)
    requires
        0 <= upto <= nodes.len(),
        targets.len() == nodes.len(),
    ensures
        changes_to(points, nodes, targets, upto).contains(change) <==> exists|k: int|
            0 <= k < upto && #[trigger] nodes[k] == change.source_node && targets[k] == change.after && points[nodes[k]]
                == change.before && !same_position(targets[k], points[nodes[k]]),
    decreases upto,
{
    if upto > 0 {
        moves_are_on_record(points, nodes, targets, upto - 1, change);
        let node = nodes[upto - 1];
        crate::ordering::pushed_contains(
            changes_to(points, nodes, targets, upto - 1),
            (HoleNodeChange { source_node: node, before: points[node], after: targets[upto - 1] }),
            change,
        );
    }
}

/// Only a report whose attempt is in the group is restored; any other stays as it was.
pub proof fn only_the_group_is_restored(before: Recovery, report: HoleRecovery, r: int, group: Seq<usize>)
    requires
        report_settled(before, report, r, group),
    ensures
        (exists|k: int| 0 <= k < group.len() && before.attempts@[#[trigger] group[k] as int].report == r) ==> report.outcome
            == HoleOutcome::Restored,
        (forall|k: int| 0 <= k < group.len() ==> before.attempts@[#[trigger] group[k] as int].report != r) ==> report == before.reports@[r],
        report.patch == before.reports@[r].patch,
        report.source_elements == before.reports@[r].source_elements,
        report.constraints == before.reports@[r].constraints,
        forall|k: int|
            0 <= k < group.len() && before.attempts@[#[trigger] group[k] as int].report == r ==> report.changes@ == changes_to(
                before.points@,
                before.attempts@[group[k] as int].nodes@,
                before.attempts@[group[k] as int].targets@,
                before.attempts@[group[k] as int].nodes@.len() as int,
            ),
{
}

/// A support is common to a ring exactly when each of its nodes lies on a surface that it
/// represents.
pub proof fn rings_lie_on_common_supports(
    ring: Seq<u32>,
    owners: Seq<NodeSurfaces>,
    representatives: Seq<usize>,
    support: usize,
    k: int,
    m: int,
)
    requires
        owners_sorted(owners),
        common_to_ring(ring, owners, representatives, support),
        0 <= k < ring.len(),
        0 <= m < owners.len(),
        owners[m].node == ring[k],
    ensures
        exists|o: int| 0 <= o < owners[m].surfaces@.len() && representatives[#[trigger] owners[m].surfaces@[o] as int] == support,
{
    assert(owned_support(owners, representatives, ring[k], support));
    let (n, o) = choose|n: int, o: int|
        0 <= n < owners.len() && owners[n].node == ring[k] && 0 <= o < owners[n].surfaces@.len() && representatives[#[trigger] owners[n].surfaces@[o] as int]
            == support;
    if n < m {
        assert(owners[n].node < owners[m].node);
    } else if m < n {
        assert(owners[m].node < owners[n].node);
    }
    assert(representatives[owners[m].surfaces@[o] as int] == support);
}

/// Every node that is tried is wanted where its supports meet, and no other node is.
pub proof fn tried_nodes_are_wanted_at_their_target(nodes: Seq<u32>, targets: Seq<Point>, trials: Seq<NodeTrial>, i: int)
    requires
        desired_of(nodes, targets, trials),
        0 <= i < trials.len(),
        forall|j: int| i < j < trials.len() ==> (#[trigger] trials[j]).node != trials[i].node,
    ensures
        exists|k: int| 0 <= k < nodes.len() && #[trigger] nodes[k] == trials[i].node && trials[i].target == Some(targets[k]),
{
    let node = trials[i].node;
    assert(nodes.contains(node));
    let k = choose|k: int| 0 <= k < nodes.len() && nodes[k] == node;
    assert(last_trial(trials, nodes[k], i));
    assert(trials[i].target == Some(targets[k]));
    assert(nodes[k] == node);
}

/// A region is affected exactly when one of its contours passes a moved node.
pub proof fn regions_at_moved_nodes_are_affected(affected: Seq<usize>, rings: Seq<RegionRings>, nodes: Seq<u32>, i: int, l: int, k: int)
    requires
        affected_by(affected, rings, nodes),
        0 <= i < rings.len(),
        0 <= l < rings[i].loops@.len(),
        0 <= k < nodes.len(),
        rings[i].loops@[l]@.contains(nodes[k]),
    ensures
        affected.contains(rings[i].region),
{
    assert(rings_contain(rings[i], nodes[k]));
    assert(rings_meet(rings[i], nodes));
    assert(met_before(rings, nodes, rings.len() as int, rings[i].region));
}

} // verus!
