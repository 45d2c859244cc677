//! Joint proposal from immutable source nodes, whole axes and support planes:
//! which unknowns, budgets and incidences a solve is given, and what becomes of
//! its candidate. This is a geometric constraint solve, not a mechanical or
//! meshing model.
pub mod equations;
pub mod segments;
pub mod sliding;

use vstd::prelude::*;
use crate::input::{MeshData, Point};
use crate::ordering::{append_ids, ascending, find_id, unique};
use crate::reconstruction::planes::{Patch, StiffnessRegion};
use crate::reconstruction::recognize::{finite_point, is_finite_point, placed, RecognizedAxis, SourceSpan, QUARTER_PI_BITS};
use crate::reconstruction::PlaneFrame;
use crate::scalar::{greatest, greatest_from_zero, is_positive, positive, Scalar};

verus! {

#[derive(Debug, Clone, Copy)]
pub struct Policy {
    pub up: Point,
    pub angle: Scalar,
    pub maximum_movement: Scalar,
    pub relative_movement: Scalar,
    pub minimum_length: Scalar,
    pub residual_tolerance: Scalar,
    pub iterations: usize,
}

impl Policy {
    /// `up_length` is the length of the up vector.
    pub open spec fn valid(&self, up_length: Scalar) -> bool {
        &&& finite_point(self.up)
        &&& positive(up_length)
        &&& self.iterations > 0
        &&& positive(self.angle)
        &&& self.angle.lt(Scalar { bits: QUARTER_PI_BITS })
        &&& positive(self.maximum_movement)
        &&& positive(self.relative_movement)
        &&& positive(self.minimum_length)
        &&& positive(self.residual_tolerance)
    }

    pub fn is_valid(&self, up_length: &Scalar) -> (r: bool)
        ensures
            r == self.valid(*up_length),
    {
        is_finite_point(&self.up) && is_positive(up_length) && self.iterations > 0 && is_positive(
            &self.angle,
        ) && self.angle.less(&Scalar { bits: QUARTER_PI_BITS }) && is_positive(
            &self.maximum_movement,
        ) && is_positive(&self.relative_movement) && is_positive(&self.minimum_length)
            && is_positive(&self.residual_tolerance)
    }
}

#[derive(Debug, Clone, Copy, PartialEq, Eq, Structural)]
pub struct Anchor {
    pub node: usize,
    pub t: Scalar,
}

#[derive(Debug)]
pub struct Axis {
    pub endpoints: [usize; 2],
    pub anchors: Vec<Anchor>,
    pub spans: Vec<SourceSpan>,
}

#[derive(Debug)]
pub struct Surface {
    pub plane: PlaneFrame,
    pub nodes: Vec<usize>,
    pub source_elements: Vec<u32>,
    pub stiffness_regions: Vec<StiffnessRegion>,
}

/// Where an equation of the solve comes from.
#[derive(Debug, Clone, Copy, PartialEq, Eq, Structural)]
pub enum ConstraintOrigin {
    AxisAnchor { axis: usize, node_id: u32, component: usize },
    ShortAxisVector { axis: usize, component: usize },
    AxisDirection { axis: usize },
    PlaneIncidence { plane: usize, node_id: u32 },
}

#[derive(Debug, Clone, Copy, PartialEq, Eq, Structural)]
pub struct ConstraintFailure {
    pub origin: ConstraintOrigin,
    /// Absolute residual of the equation.
    pub residual: Scalar,
}

#[derive(Debug, Clone, Copy, PartialEq, Eq, Structural)]
pub struct MovementFailure {
    pub node_id: u32,
    pub movement: Scalar,
    pub budget: Scalar,
}

#[derive(Debug)]
pub struct AxisFailure {
    pub axis: usize,
    pub source_elements: Vec<u32>,
    pub original_length: Scalar,
    pub candidate_length: Scalar,
}

#[derive(Debug)]
pub struct Report {
    pub policy: Policy,
    pub accepted: bool,
    pub reason: String,
    pub iterations: usize,
    pub candidate_max_residual: Scalar,
    pub candidate_maximum_movement: Scalar,
    pub candidate_over_budget_node_ids: Vec<u32>,
    pub maximum_movement: Scalar,
    pub node_ids: Vec<u32>,
    pub reference_points: Vec<Point>,
    pub candidate_points: Vec<Point>,
    pub points: Vec<Point>,
    pub axes: Vec<Axis>,
    pub surfaces: Vec<Surface>,
    pub candidate_planes: Vec<PlaneFrame>,
    /// Supports that were accepted as one family, by surface index.
    pub plane_families: Vec<Vec<usize>>,
    pub equation_count: usize,
    pub violating_equations: usize,
    pub short_axis_indices: Vec<usize>,
    pub largest_constraint_failures: Vec<ConstraintFailure>,
    pub movement_failures: Vec<MovementFailure>,
    pub axis_failures: Vec<AxisFailure>,
}

/// The unknowns of a solve and what is known of them beforehand.
#[derive(Debug)]
pub struct Prepared {
    pub node_ids: Vec<u32>,
    pub reference: Vec<Point>,
    /// How far each node may move.
    pub budgets: Vec<Scalar>,
    pub axes: Vec<Axis>,
    pub surfaces: Vec<Surface>,
}

pub open spec fn axis_uses(axis: RecognizedAxis, node: u32) -> bool {
    exists|k: int| 0 <= k < axis.anchors@.len() && (#[trigger] axis.anchors@[k]).node == node
}

/// The node anchors an axis or lies on a patch.
pub open spec fn used_node(axes: Seq<RecognizedAxis>, patches: Seq<Patch>, node: u32) -> bool {
    ||| exists|a: int| 0 <= a < axes.len() && axis_uses(#[trigger] axes[a], node)
    ||| exists|p: int|
        0 <= p < patches.len() && (#[trigger] patches[p]).source_nodes@.contains(node)
}

pub open spec fn in_unit_interval(t: Scalar) -> bool {
    t.finite() && Scalar::spec_zero().le(t) && t.le(Scalar::spec_one())
}

pub open spec fn anchors_valid(axis: RecognizedAxis) -> bool {
    forall|k: int| 0 <= k < axis.anchors@.len() ==> in_unit_interval((#[trigger] axis.anchors@[k]).t)
}

pub open spec fn axis_error(
    axis: RecognizedAxis,
    ids: Seq<u32>,
    length: Scalar,
    policy: Policy,
) -> Option<Seq<char>> {
    if !ids.contains(axis.endpoint_nodes[0]) || !ids.contains(axis.endpoint_nodes[1])
        || !anchors_valid(axis) {
        Some("invalid axis anchors"@)
    } else if !length.finite() || length.le(policy.residual_tolerance) {
        Some("source axis shorter than minimum length"@)
    } else {
        None
    }
}

pub open spec fn first_axis_error(
    axes: Seq<RecognizedAxis>,
    ids: Seq<u32>,
    lengths: Seq<Scalar>,
    policy: Policy,
    from: int,
) -> Option<Seq<char>>
    decreases axes.len() - from,
{
    if from >= axes.len() {
        None
    } else {
        match axis_error(axes[from], ids, lengths[from], policy) {
            Some(error) => Some(error),
            None => first_axis_error(axes, ids, lengths, policy, from + 1),
        }
    }
}

/// Why no solve can be set up; `None` where it can.
pub open spec fn prepare_error(
    mesh: MeshData,
    axes: Seq<RecognizedAxis>,
    patches: Seq<Patch>,
    policy: Policy,
    up_length: Scalar,
    ids: Seq<u32>,
    lengths: Seq<Scalar>,
) -> Option<Seq<char>> {
    if !policy.valid(up_length) {
        Some("invalid frame policy"@)
    } else if exists|i: int| 0 <= i < ids.len() && !placed(mesh, #[trigger] ids[i]) {
        Some("missing source node"@)
    } else {
        match first_axis_error(axes, ids, lengths, policy, 0) {
            Some(error) => Some(error),
            None => if exists|p: int|
                0 <= p < patches.len() && (#[trigger] patches[p]).source_nodes@.len() == 0 {
                Some("empty support plane"@)
            } else {
                None
            },
        }
    }
}

pub open spec fn indexed_axis(axis: Axis, source: RecognizedAxis, ids: Seq<u32>) -> bool {
    &&& axis.endpoints[0] < ids.len() && ids[axis.endpoints[0] as int] == source.endpoint_nodes[0]
    &&& axis.endpoints[1] < ids.len() && ids[axis.endpoints[1] as int] == source.endpoint_nodes[1]
    &&& axis.anchors@.len() == source.anchors@.len()
    &&& forall|k: int|
        0 <= k < axis.anchors@.len() ==> (#[trigger] axis.anchors@[k]).node < ids.len()
            && ids[axis.anchors@[k].node as int] == source.anchors@[k].node && axis.anchors@[k].t
            == source.anchors@[k].t
    &&& axis.spans@ == source.spans@
}

pub open spec fn indexed_surface(surface: Surface, patch: Patch, ids: Seq<u32>) -> bool {
    &&& surface.plane == patch.plane
    &&& surface.nodes@.len() == patch.source_nodes@.len()
    &&& forall|k: int|
        0 <= k < surface.nodes@.len() ==> #[trigger] surface.nodes@[k] < ids.len()
            && ids[surface.nodes@[k] as int] == patch.source_nodes@[k]
    &&& surface.source_elements@ == patch.source_elements@
    &&& same_regions(surface.stiffness_regions@, patch.stiffness_regions@)
}

pub open spec fn same_regions(a: Seq<StiffnessRegion>, b: Seq<StiffnessRegion>) -> bool {
    &&& a.len() == b.len()
    &&& forall|r: int|
        0 <= r < a.len() ==> (#[trigger] a[r]).stiffness == b[r].stiffness && a[r].elements@
            == b[r].elements@
}

/// The budget of a node: the common bound or the cap of an axis that anchors
/// the node, whichever is least.
pub open spec fn node_budget(
    budget: Scalar,
    node: u32,
    axes: Seq<RecognizedAxis>,
    caps: Seq<Scalar>,
    bound: Scalar,
) -> bool {
    &&& budget == bound || exists|a: int|
        0 <= a < axes.len() && axis_uses(#[trigger] axes[a], node) && budget == caps[a]
    &&& !bound.lt(budget)
    &&& forall|a: int|
        0 <= a < axes.len() && axis_uses(#[trigger] axes[a], node) ==> !caps[a].lt(budget)
}

pub open spec fn prepared_for(
    prepared: Prepared,
    mesh: MeshData,
    axes: Seq<RecognizedAxis>,
    patches: Seq<Patch>,
    policy: Policy,
    caps: Seq<Scalar>,
) -> bool {
    let ids = prepared.node_ids@;
    &&& ascending(ids)
    &&& forall|node: u32| #[trigger] ids.contains(node) <==> used_node(axes, patches, node)
    &&& prepared.reference@.len() == ids.len()
    &&& forall|i: int|
        0 <= i < ids.len() ==> #[trigger] prepared.reference@[i] == mesh.nodes@[ids[i]]
    &&& prepared.budgets@.len() == ids.len()
    &&& forall|i: int|
        0 <= i < ids.len() ==> node_budget(
            #[trigger] prepared.budgets@[i],
            ids[i],
            axes,
            caps,
            policy.maximum_movement,
        )
    &&& prepared.axes@.len() == axes.len()
    &&& forall|a: int|
        0 <= a < axes.len() ==> indexed_axis(#[trigger] prepared.axes@[a], axes[a], ids)
    &&& prepared.surfaces@.len() == patches.len()
    &&& forall|p: int|
        0 <= p < patches.len() ==> indexed_surface(
            #[trigger] prepared.surfaces@[p],
            patches[p],
            ids,
        )
}

/// The nodes that a solve involves, ascending.
#[verifier::loop_isolation(false)]
pub fn involved_nodes(axes: &Vec<RecognizedAxis>, patches: &Vec<Patch>) -> (ids: Vec<u32>)
    ensures
        ascending(ids@),
        forall|node: u32| #[trigger] ids@.contains(node) <==> used_node(axes@, patches@, node),
{
    let mut all: Vec<u32> = Vec::new();
    let mut a: usize = 0;
    while a < axes.len()
        invariant
            a <= axes.len(),
            forall|i: int|
                0 <= i < all.len() ==> used_node(axes@, patches@, #[trigger] all@[i]),
            forall|b: int, k: int|
                0 <= b < a && 0 <= k < axes@[b].anchors@.len() ==> all@.contains(
                    (#[trigger] axes@[b].anchors@[k]).node,
                ),
        decreases axes.len() - a,
    {
        let mut k: usize = 0;
        while k < axes[a].anchors.len()
            invariant
                a < axes.len(),
                k <= axes@[a as int].anchors@.len(),
                forall|i: int|
                    0 <= i < all.len() ==> used_node(axes@, patches@, #[trigger] all@[i]),
                forall|b: int, l: int|
                    0 <= b < axes.len() && 0 <= l < axes@[b].anchors@.len() && (b < a || (b == a && l < k)) ==> all@.contains(
                        (#[trigger] axes@[b].anchors@[l]).node,
                    ),
            decreases axes@[a as int].anchors@.len() - k,
        {
            let ghost before = all@;
            all.push(axes[a].anchors[k].node);
            proof {
                let node = axes@[a as int].anchors@[k as int].node;
                assert(axis_uses(axes@[a as int], node));
                assert(all@[all.len() - 1] == node);
                assert forall|x: u32| before.contains(x) implies #[trigger] all@.contains(x) by {
                    let m = choose|m: int| 0 <= m < before.len() && before[m] == x;
                    assert(all@[m] == x);
                }
                assert forall|i: int| 0 <= i < all.len() implies used_node(axes@, patches@, #[trigger] all@[i]) by {
                    if i < before.len() {
                        assert(all@[i] == before[i]);
                    }
                }
            }
            k += 1;
        }
        a += 1;
    }
    let mut p: usize = 0;
    while p < patches.len()
        invariant
            p <= patches.len(),
            forall|i: int|
                0 <= i < all.len() ==> used_node(axes@, patches@, #[trigger] all@[i]),
            forall|b: int, k: int|
                0 <= b < axes.len() && 0 <= k < axes@[b].anchors@.len() ==> all@.contains(
                    (#[trigger] axes@[b].anchors@[k]).node,
                ),
            forall|q: int, x: u32|
                0 <= q < p && #[trigger] patches@[q].source_nodes@.contains(x) ==> all@.contains(x),
        decreases patches.len() - p,
    {
        let ghost before = all@;
        append_ids(&mut all, &patches[p].source_nodes);
        proof {
            let added = patches@[p as int].source_nodes@;
            assert forall|x: u32| before.contains(x) || added.contains(x) implies #[trigger] all@.contains(x) by {
                if before.contains(x) {
                    let m = choose|m: int| 0 <= m < before.len() && before[m] == x;
                    assert(all@[m] == x);
                } else {
                    let m = choose|m: int| 0 <= m < added.len() && added[m] == x;
                    assert(all@[before.len() + m] == x);
                }
            }
            assert forall|i: int| 0 <= i < all.len() implies used_node(axes@, patches@, #[trigger] all@[i]) by {
                if i < before.len() {
                    assert(all@[i] == before[i]);
                } else {
                    assert(added[i - before.len()] == all@[i]);
                    assert(patches@[p as int].source_nodes@.contains(all@[i]));
                }
            }
        }
        p += 1;
    }
    proof {
        assert forall|node: u32| all@.contains(node) <==> used_node(axes@, patches@, node) by {
            if all@.contains(node) {
                let i = choose|i: int| 0 <= i < all@.len() && all@[i] == node;
                assert(used_node(axes@, patches@, all@[i]));
            }
            if used_node(axes@, patches@, node) {
                if exists|a: int| 0 <= a < axes@.len() && axis_uses(#[trigger] axes@[a], node) {
                    let b = choose|a: int| 0 <= a < axes@.len() && axis_uses(#[trigger] axes@[a], node);
                    let k = choose|k: int| 0 <= k < axes@[b].anchors@.len() && (#[trigger] axes@[b].anchors@[k]).node == node;
                    assert(all@.contains(axes@[b].anchors@[k].node));
                }
            }
        }
    }
    unique(all)
}

fn axis_failure(axis: &RecognizedAxis, ids: &Vec<u32>, length: &Scalar, policy: &Policy) -> (r: Option<
    &'static str,
>)
    requires
        ascending(ids@),
    ensures
        match r {
            Some(error) => axis_error(*axis, ids@, *length, *policy) == Some(error@),
            None => axis_error(*axis, ids@, *length, *policy) is None,
        },
{
    if find_id(ids, axis.endpoint_nodes[0]).is_none() {
        return Some("invalid axis anchors");
    }
    if find_id(ids, axis.endpoint_nodes[1]).is_none() {
        return Some("invalid axis anchors");
    }
    let mut k: usize = 0;
    while k < axis.anchors.len()
        invariant
            k <= axis.anchors.len(),
            forall|i: int| 0 <= i < k ==> in_unit_interval((#[trigger] axis.anchors@[i]).t),
        decreases axis.anchors.len() - k,
    {
        let t = axis.anchors[k].t;
        if !t.is_finite() || !Scalar::zero().at_most(&t) || !t.at_most(&Scalar::one()) {
            assert(!in_unit_interval(axis.anchors@[k as int].t));
            return Some("invalid axis anchors");
        }
        k += 1;
    }
    if !length.is_finite() || length.at_most(&policy.residual_tolerance) {
        return Some("source axis shorter than minimum length");
    }
    None
}

fn index_axis(source: &RecognizedAxis, ids: &Vec<u32>) -> (axis: Axis)
    requires
        ascending(ids@),
        ids@.contains(source.endpoint_nodes[0]),
        ids@.contains(source.endpoint_nodes[1]),
        forall|k: int|
            0 <= k < source.anchors@.len() ==> ids@.contains((#[trigger] source.anchors@[k]).node),
    ensures
        indexed_axis(axis, *source, ids@),
{
    let first: usize = known_index(ids, source.endpoint_nodes[0]);
    let second: usize = known_index(ids, source.endpoint_nodes[1]);
    let mut anchors: Vec<Anchor> = Vec::new();
    let mut k: usize = 0;
    while k < source.anchors.len()
        invariant
            k <= source.anchors.len(),
            ascending(ids@),
            forall|k: int|
                0 <= k < source.anchors@.len() ==> ids@.contains(
                    (#[trigger] source.anchors@[k]).node,
                ),
            anchors.len() == k,
            forall|i: int|
                0 <= i < k ==> (#[trigger] anchors@[i]).node < ids.len() && ids@[anchors@[i].node as int]
                    == source.anchors@[i].node && anchors@[i].t == source.anchors@[i].t,
        decreases source.anchors.len() - k,
    {
        assert(ids@.contains(source.anchors@[k as int].node));
        let node: usize = known_index(ids, source.anchors[k].node);
        anchors.push(Anchor { node, t: source.anchors[k].t });
        k += 1;
    }
    let mut spans: Vec<SourceSpan> = Vec::new();
    let mut s: usize = 0;
    while s < source.spans.len()
        invariant
            s <= source.spans.len(),
            spans@ == source.spans@.take(s as int),
        decreases source.spans.len() - s,
    {
        spans.push(source.spans[s]);
        assert(source.spans@.take(s + 1) =~= source.spans@.take(s as int).push(source.spans@[s as int]));
        s += 1;
    }
    assert(source.spans@.take(s as int) =~= source.spans@);
    Axis { endpoints: [first, second], anchors, spans }
}

fn known_index(ids: &Vec<u32>, id: u32) -> (r: usize)
    requires
        ascending(ids@),
        ids@.contains(id),
    ensures
        r < ids.len(),
        ids@[r as int] == id,
{
    match find_id(ids, id) {
        Some(i) => i,
        None => 0,
    }
}

pub fn copy_regions(regions: &Vec<StiffnessRegion>) -> (r: Vec<StiffnessRegion>)
    ensures
        same_regions(r@, regions@),
{
    let mut r: Vec<StiffnessRegion> = Vec::new();
    let mut k: usize = 0;
    while k < regions.len()
        invariant
            k <= regions.len(),
            r.len() == k,
            forall|i: int|
                0 <= i < k ==> (#[trigger] r@[i]).stiffness == regions@[i].stiffness
                    && r@[i].elements@ == regions@[i].elements@,
        decreases regions.len() - k,
    {
        let elements = crate::ordering::copy_ids(&regions[k].elements);
        r.push(StiffnessRegion { stiffness: regions[k].stiffness, elements });
        k += 1;
    }
    r
}

fn index_surface(patch: &Patch, ids: &Vec<u32>) -> (surface: Surface)
    requires
        ascending(ids@),
        forall|k: int|
            0 <= k < patch.source_nodes@.len() ==> ids@.contains(#[trigger] patch.source_nodes@[k]),
    ensures
        indexed_surface(surface, *patch, ids@),
{
    let mut nodes: Vec<usize> = Vec::new();
    let mut k: usize = 0;
    while k < patch.source_nodes.len()
        invariant
            k <= patch.source_nodes.len(),
            ascending(ids@),
            forall|k: int|
                0 <= k < patch.source_nodes@.len() ==> ids@.contains(
                    #[trigger] patch.source_nodes@[k],
                ),
            nodes.len() == k,
            forall|i: int|
                0 <= i < k ==> #[trigger] nodes@[i] < ids.len() && ids@[nodes@[i] as int]
                    == patch.source_nodes@[i],
        decreases patch.source_nodes.len() - k,
    {
        nodes.push(known_index(ids, patch.source_nodes[k]));
        k += 1;
    }
    Surface {
        plane: patch.plane,
        nodes,
        source_elements: crate::ordering::copy_ids(&patch.source_elements),
        stiffness_regions: copy_regions(&patch.stiffness_regions),
    }
}

spec fn counted(axes: Seq<RecognizedAxis>, node: u32, done: int, part: int, a: int) -> bool {
    ||| 0 <= a < done && axis_uses(axes[a], node)
    ||| a == done && exists|k: int| 0 <= k < part && (#[trigger] axes[a].anchors@[k]).node == node
}

spec fn budget_so_far(
    budget: Scalar,
    node: u32,
    axes: Seq<RecognizedAxis>,
    caps: Seq<Scalar>,
    bound: Scalar,
    done: int,
    part: int,
) -> bool {
    &&& budget == bound || exists|a: int| #[trigger]
        counted(axes, node, done, part, a) && budget == caps[a]
    &&& !bound.lt(budget)
    &&& forall|a: int| #[trigger] counted(axes, node, done, part, a) ==> !caps[a].lt(budget)
}

proof fn budget_step(
    before: Scalar,
    after: Scalar,
    node: u32,
    axes: Seq<RecognizedAxis>,
    caps: Seq<Scalar>,
    bound: Scalar,
    done: int,
    part: int,
)
    requires
        0 <= done < axes.len(),
        0 <= part < axes[done].anchors@.len(),
        budget_so_far(before, node, axes, caps, bound, done, part),
        if axes[done].anchors@[part].node == node && caps[done].lt(before) {
            after == caps[done]
        } else {
            after == before
        },
    ensures
        budget_so_far(after, node, axes, caps, bound, done, part + 1),
{
    assert forall|a: int| #[trigger] counted(axes, node, done, part + 1, a) implies counted(
        axes,
        node,
        done,
        part,
        a,
    ) || (a == done && axes[done].anchors@[part].node == node) by {
        if a == done && !counted(axes, node, done, part, a) {
            let k = choose|k: int|
                0 <= k < part + 1 && (#[trigger] axes[a].anchors@[k]).node == node;
            if k < part {
                assert(axes[a].anchors@[k].node == node);
            }
        }
    }
    assert forall|a: int| counted(axes, node, done, part, a) implies #[trigger] counted(
        axes,
        node,
        done,
        part + 1,
        a,
    ) by {
        if a == done {
            let k = choose|k: int| 0 <= k < part && (#[trigger] axes[a].anchors@[k]).node == node;
            assert(axes[a].anchors@[k].node == node);
        }
    }
    if axes[done].anchors@[part].node == node {
        assert(axes[done].anchors@[part].node == node);
        assert(counted(axes, node, done, part + 1, done));
    }
    if before != bound {
        let a = choose|a: int| #[trigger]
            counted(axes, node, done, part, a) && before == caps[a];
        assert(counted(axes, node, done, part + 1, a));
    }
}

proof fn budget_next(
    budget: Scalar,
    node: u32,
    axes: Seq<RecognizedAxis>,
    caps: Seq<Scalar>,
    bound: Scalar,
    done: int,
)
    requires
        0 <= done < axes.len(),
        budget_so_far(budget, node, axes, caps, bound, done, axes[done].anchors@.len() as int),
    ensures
        budget_so_far(budget, node, axes, caps, bound, done + 1, 0),
{
    let all = axes[done].anchors@.len() as int;
    assert forall|a: int| #[trigger] counted(axes, node, done + 1, 0, a) <==> counted(
        axes,
        node,
        done,
        all,
        a,
    ) by {
        if a == done && axis_uses(axes[a], node) {
            let k = choose|k: int|
                0 <= k < axes[a].anchors@.len() && (#[trigger] axes[a].anchors@[k]).node == node;
            assert(axes[a].anchors@[k].node == node);
        }
    }
    if budget != bound {
        let a = choose|a: int| #[trigger] counted(axes, node, done, all, a) && budget == caps[a];
        assert(counted(axes, node, done + 1, 0, a));
    }
}

proof fn budget_done(
    budget: Scalar,
    node: u32,
    axes: Seq<RecognizedAxis>,
    caps: Seq<Scalar>,
    bound: Scalar,
)
    requires
        budget_so_far(budget, node, axes, caps, bound, axes.len() as int, 0),
    ensures
        node_budget(budget, node, axes, caps, bound),
{
    let n = axes.len() as int;
    if budget != bound {
        let a = choose|a: int| #[trigger] counted(axes, node, n, 0, a) && budget == caps[a];
        assert(axis_uses(axes[a], node));
    }
    assert forall|a: int| 0 <= a < axes.len() && axis_uses(#[trigger] axes[a], node) implies !caps[a].lt(
        budget,
    ) by {
        assert(counted(axes, node, n, 0, a));
    }
}

#[verifier::loop_isolation(false)]
fn node_budgets(
    axes: &Vec<RecognizedAxis>,
    caps: &Vec<Scalar>,
    ids: &Vec<u32>,
    bound: Scalar,
) -> (budgets: Vec<Scalar>)
    requires
        ascending(ids@),
        caps.len() == axes.len(),
        !bound.nan(),
        forall|a: int, k: int|
            0 <= a < axes.len() && 0 <= k < axes@[a].anchors@.len() ==> ids@.contains(
                (#[trigger] axes@[a].anchors@[k]).node,
            ),
    ensures
        budgets.len() == ids.len(),
        forall|i: int|
            0 <= i < ids.len() ==> node_budget(#[trigger] budgets@[i], ids@[i], axes@, caps@, bound),
{
    let mut budgets: Vec<Scalar> = Vec::new();
    let mut i: usize = 0;
    while i < ids.len()
        invariant
            i <= ids.len(),
            budgets.len() == i,
            forall|j: int| 0 <= j < i ==> #[trigger] budgets@[j] == bound,
        decreases ids.len() - i,
    {
        budgets.push(bound);
        i += 1;
    }
    proof {
        assert forall|j: int| 0 <= j < ids.len() implies budget_so_far(#[trigger] budgets@[j], ids@[j], axes@, caps@, bound, 0, 0) by {
            assert(budgets@[j] == bound);
        }
    }
    let mut a: usize = 0;
    while a < axes.len()
        invariant
            a <= axes.len(),
            budgets.len() == ids.len(),
            forall|j: int| 0 <= j < ids.len() ==> budget_so_far(#[trigger] budgets@[j], ids@[j], axes@, caps@, bound, a as int, 0),
        decreases axes.len() - a,
    {
        let mut k: usize = 0;
        while k < axes[a].anchors.len()
            invariant
                a < axes.len(),
                k <= axes@[a as int].anchors@.len(),
                budgets.len() == ids.len(),
                forall|j: int| 0 <= j < ids.len() ==> budget_so_far(#[trigger] budgets@[j], ids@[j], axes@, caps@, bound, a as int, k as int),
            decreases axes@[a as int].anchors@.len() - k,
        {
            let ghost before = budgets@;
            assert(ids@.contains(axes@[a as int].anchors@[k as int].node));
            let node: usize = known_index(ids, axes[a].anchors[k].node);
            if caps[a].less(&budgets[node]) {
                budgets.set(node, caps[a]);
            }
            proof {
                assert forall|j: int| 0 <= j < ids.len() implies budget_so_far(#[trigger] budgets@[j], ids@[j], axes@, caps@, bound, a as int, k + 1) by {
                    if j != node {
                        if j < node {
                            assert(ids@[j] < ids@[node as int]);
                        } else {
                            assert(ids@[node as int] < ids@[j]);
                        }
                    }
                    budget_step(before[j], budgets@[j], ids@[j], axes@, caps@, bound, a as int, k as int);
                }
            }
            k += 1;
        }
        proof {
            assert forall|j: int| 0 <= j < ids.len() implies budget_so_far(#[trigger] budgets@[j], ids@[j], axes@, caps@, bound, a + 1, 0) by {
                budget_next(budgets@[j], ids@[j], axes@, caps@, bound, a as int);
            }
        }
        a += 1;
    }
    proof {
        assert forall|j: int| 0 <= j < ids.len() implies node_budget(#[trigger] budgets@[j], ids@[j], axes@, caps@, bound) by {
            budget_done(budgets@[j], ids@[j], axes@, caps@, bound);
        }
    }
    budgets
}

/// Sets a solve up. `lengths` and `caps` hold the source length of each axis
/// and how far that length lets its nodes move.
#[verifier::loop_isolation(false)]
#[verifier::rlimit(40)]
pub fn prepare(
    mesh: &MeshData,
    axes: &Vec<RecognizedAxis>,
    patches: &Vec<Patch>,
    policy: &Policy,
    up_length: &Scalar,
    lengths: &Vec<Scalar>,
    caps: &Vec<Scalar>,
) -> (r: Result<Prepared, &'static str>)
    requires
        lengths.len() == axes.len(),
        caps.len() == axes.len(),
    ensures
        match r {
            Ok(prepared) => prepared_for(prepared, *mesh, axes@, patches@, *policy, caps@)
                && prepare_error(
                *mesh,
                axes@,
                patches@,
                *policy,
                *up_length,
                prepared.node_ids@,
                lengths@,
            ) is None,
            Err(error) => forall|ids: Seq<u32>|
                ascending(ids) && (forall|node: u32| #[trigger]
                    ids.contains(node) <==> used_node(axes@, patches@, node)) ==> #[trigger] prepare_error(
                    *mesh,
                    axes@,
                    patches@,
                    *policy,
                    *up_length,
                    ids,
                    lengths@,
                ) == Some(error@),
        },
{
    if !policy.is_valid(up_length) {
        return Err("invalid frame policy");
    }
    let ids = involved_nodes(axes, patches);
    proof {
        assert forall|other: Seq<u32>| ascending(other) && (forall|node: u32| #[trigger]
            other.contains(node) <==> used_node(axes@, patches@, node)) implies other == ids@ by {
            assert forall|x: u32| other.contains(x) <==> ids@.contains(x) by {}
            crate::ordering::ascending_determined(other, ids@);
        }
    }
    let mut reference: Vec<Point> = Vec::new();
    let mut i: usize = 0;
    while i < ids.len()
        invariant
            i <= ids.len(),
            reference.len() == i,
            forall|k: int| 0 <= k < i ==> placed(*mesh, #[trigger] ids@[k]),
            forall|k: int| 0 <= k < i ==> #[trigger] reference@[k] == mesh.nodes@[ids@[k]],
        decreases ids.len() - i,
    {
        match mesh.nodes.get(ids[i]) {
            Some(point) => {
                if !is_finite_point(&point) {
                    assert(!placed(*mesh, ids@[i as int]));
                    return Err("missing source node");
                }
                reference.push(point);
            },
            None => {
                assert(!placed(*mesh, ids@[i as int]));
                return Err("missing source node");
            },
        }
        i += 1;
    }
    let mut a: usize = 0;
    while a < axes.len()
        invariant
            a <= axes.len(),
            first_axis_error(axes@, ids@, lengths@, *policy, 0) == first_axis_error(
                axes@,
                ids@,
                lengths@,
                *policy,
                a as int,
            ),
            forall|b: int| 0 <= b < a ==> axis_error(#[trigger] axes@[b], ids@, lengths@[b], *policy) is None,
        decreases axes.len() - a,
    {
        match axis_failure(&axes[a], &ids, &lengths[a], policy) {
            Some(error) => {
                return Err(error);
            },
            None => {},
        }
        a += 1;
    }
    let mut p: usize = 0;
    while p < patches.len()
        invariant
            p <= patches.len(),
            forall|q: int| 0 <= q < p ==> (#[trigger] patches@[q]).source_nodes@.len() > 0,
        decreases patches.len() - p,
    {
        if patches[p].source_nodes.len() == 0 {
            assert(patches@[p as int].source_nodes@.len() == 0);
            return Err("empty support plane");
        }
        p += 1;
    }
    proof {
        assert forall|b: int, k: int| 0 <= b < axes.len() && 0 <= k < axes@[b].anchors@.len() implies ids@.contains(
            (#[trigger] axes@[b].anchors@[k]).node) by {
            assert(axis_uses(axes@[b], axes@[b].anchors@[k].node));
        }
        assert forall|q: int, k: int| 0 <= q < patches.len() && 0 <= k < patches@[q].source_nodes@.len() implies ids@.contains(
            #[trigger] patches@[q].source_nodes@[k]) by {
            assert(patches@[q].source_nodes@.contains(patches@[q].source_nodes@[k]));
        }
    }
    let budgets = node_budgets(axes, caps, &ids, policy.maximum_movement);
    let mut new_axes: Vec<Axis> = Vec::new();
    let mut b: usize = 0;
    while b < axes.len()
        invariant
            b <= axes.len(),
            new_axes.len() == b,
            forall|c: int| 0 <= c < b ==> indexed_axis(#[trigger] new_axes@[c], axes@[c], ids@),
        decreases axes.len() - b,
    {
        assert(axis_error(axes@[b as int], ids@, lengths@[b as int], *policy) is None);
        new_axes.push(index_axis(&axes[b], &ids));
        b += 1;
    }
    let mut surfaces: Vec<Surface> = Vec::new();
    let mut q: usize = 0;
    while q < patches.len()
        invariant
            q <= patches.len(),
            surfaces.len() == q,
            forall|c: int| 0 <= c < q ==> indexed_surface(#[trigger] surfaces@[c], patches@[c], ids@),
        decreases patches.len() - q,
    {
        surfaces.push(index_surface(&patches[q], &ids));
        q += 1;
    }
    Ok(Prepared { node_ids: ids, reference, budgets, axes: new_axes, surfaces })
}

/// What a solve came to.
#[derive(Debug)]
pub struct Outcome {
    pub iterations: usize,
    /// Largest absolute residual over all equations.
    pub residual: Scalar,
    pub equation_count: usize,
    pub violating_equations: usize,
    pub candidate: Vec<Point>,
    /// Distance of each node from where it was.
    pub movements: Vec<Scalar>,
    /// The budget of each node with the numerical allowance.
    pub limits: Vec<Scalar>,
    /// Whether each axis keeps a sufficient length and its sense.
    pub axes_hold: Vec<bool>,
    pub candidate_lengths: Vec<Scalar>,
    /// The solved support of each surface, where it is a plane.
    pub planes: Vec<Option<PlaneFrame>>,
    pub plane_families: Vec<Vec<usize>>,
    pub constraint_failures: Vec<ConstraintFailure>,
}

pub open spec fn outcome_fits(prepared: Prepared, outcome: Outcome, lengths: Seq<Scalar>) -> bool {
    let n = prepared.node_ids@.len();
    &&& prepared.reference@.len() == n
    &&& prepared.budgets@.len() == n
    &&& outcome.candidate@.len() == n
    &&& outcome.movements@.len() == n
    &&& outcome.limits@.len() == n
    &&& forall|i: int| 0 <= i < n ==> !(#[trigger] outcome.limits@[i]).lt(prepared.budgets@[i])
    &&& outcome.axes_hold@.len() == prepared.axes@.len()
    &&& outcome.candidate_lengths@.len() == prepared.axes@.len()
    &&& lengths.len() == prepared.axes@.len()
    &&& outcome.planes@.len() == prepared.surfaces@.len()
}

pub open spec fn over_budget(outcome: Outcome, i: int) -> bool {
    outcome.limits@[i].lt(outcome.movements@[i])
}

pub open spec fn within_budget(outcome: Outcome) -> bool {
    forall|i: int|
        0 <= i < outcome.movements@.len() ==> (#[trigger] outcome.movements@[i]).le(
            outcome.limits@[i],
        )
}

pub open spec fn candidate_valid(outcome: Outcome) -> bool {
    &&& forall|i: int|
        0 <= i < outcome.candidate@.len() ==> finite_point(#[trigger] outcome.candidate@[i])
    &&& forall|a: int| 0 <= a < outcome.axes_hold@.len() ==> #[trigger] outcome.axes_hold@[a]
}

/// A node that moves no farther than its budget is never over it, and what is over its
/// limit moves farther than its budget.
pub proof fn budgets_are_respected(prepared: Prepared, outcome: Outcome, lengths: Seq<Scalar>, i: int)
    requires
        outcome_fits(prepared, outcome, lengths),
        0 <= i < prepared.node_ids@.len(),
        !prepared.budgets@[i].nan(),
    ensures
        outcome.movements@[i].le(prepared.budgets@[i]) ==> !over_budget(outcome, i),
        over_budget(outcome, i) ==> prepared.budgets@[i].lt(outcome.movements@[i]),
{
    assert(!outcome.limits@[i].lt(prepared.budgets@[i]));
}

/// A candidate is taken only as a whole: constraints met, geometry valid and
/// every node within its budget.
pub open spec fn accepted(policy: Policy, outcome: Outcome) -> bool {
    outcome.residual.le(policy.residual_tolerance) && candidate_valid(outcome) && within_budget(
        outcome,
    )
}

pub open spec fn verdict(policy: Policy, outcome: Outcome) -> Seq<char> {
    if accepted(policy, outcome) {
        "converged"@
    } else if !within_budget(outcome) {
        "movement_budget_exceeded"@
    } else if !candidate_valid(outcome) {
        "invalid_axis"@
    } else {
        "constraints_or_budget_not_satisfied"@
    }
}

pub open spec fn over_budget_node(ids: Seq<u32>, outcome: Outcome, node: u32) -> bool {
    exists|i: int| 0 <= i < ids.len() && #[trigger] over_budget(outcome, i) && ids[i] == node
}

pub open spec fn movement_failure_of(
    failure: MovementFailure,
    prepared: Prepared,
    outcome: Outcome,
) -> bool {
    exists|i: int|
        0 <= i < prepared.node_ids@.len() && #[trigger] over_budget(outcome, i) && failure == (
        MovementFailure {
            node_id: prepared.node_ids@[i],
            movement: outcome.movements@[i],
            budget: prepared.budgets@[i],
        })
}

pub open spec fn axis_failure_of(
    failure: AxisFailure,
    prepared: Prepared,
    outcome: Outcome,
    lengths: Seq<Scalar>,
) -> bool {
    let a = failure.axis as int;
    &&& 0 <= a < prepared.axes@.len()
    &&& !outcome.axes_hold@[a]
    &&& failure.original_length == lengths[a]
    &&& failure.candidate_length == outcome.candidate_lengths@[a]
    &&& span_elements(failure.source_elements@, prepared.axes@[a])
}

/// The elements of an axis, ascending.
pub open spec fn span_elements(elements: Seq<u32>, axis: Axis) -> bool {
    &&& ascending(elements)
    &&& forall|id: u32| #[trigger]
        elements.contains(id) <==> exists|s: int|
            0 <= s < axis.spans@.len() && (#[trigger] axis.spans@[s]).element == id
}

pub open spec fn axis_failure_listed(failures: Seq<AxisFailure>, a: int) -> bool {
    exists|k: int| 0 <= k < failures.len() && (#[trigger] failures[k]).axis == a
}

pub open spec fn concluded(
    report: Report,
    policy: Policy,
    prepared: Prepared,
    outcome: Outcome,
    lengths: Seq<Scalar>,
) -> bool {
    let taken = accepted(policy, outcome);
    &&& report.policy == policy
    &&& report.accepted == taken
    &&& report.reason@ == verdict(policy, outcome)
    &&& report.iterations == outcome.iterations
    &&& report.equation_count == outcome.equation_count
    &&& report.violating_equations == outcome.violating_equations
    &&& report.candidate_max_residual == outcome.residual
    &&& report.candidate_maximum_movement == greatest_from_zero(outcome.movements@)
    &&& report.maximum_movement == (if taken {
        greatest_from_zero(outcome.movements@)
    } else {
        Scalar::spec_zero()
    })
    &&& report.node_ids@ == prepared.node_ids@
    &&& report.reference_points@ == prepared.reference@
    &&& report.candidate_points@ == outcome.candidate@
    &&& report.points@ == (if taken {
        outcome.candidate@
    } else {
        prepared.reference@
    })
    &&& report.axes == prepared.axes
    &&& report.plane_families == outcome.plane_families
    &&& report.largest_constraint_failures == outcome.constraint_failures
    &&& ascending(report.candidate_over_budget_node_ids@)
    &&& forall|node: u32| #[trigger]
        report.candidate_over_budget_node_ids@.contains(node) <==> over_budget_node(
            prepared.node_ids@,
            outcome,
            node,
        )
    &&& report.movement_failures@.len() == report.candidate_over_budget_node_ids@.len()
    &&& forall|k: int|
        0 <= k < report.movement_failures@.len() ==> movement_failure_of(
            #[trigger] report.movement_failures@[k],
            prepared,
            outcome,
        ) && report.movement_failures@[k].node_id == report.candidate_over_budget_node_ids@[k]
    &&& crate::ordering::ascending_indices(report.short_axis_indices@)
    &&& forall|a: usize| #[trigger]
        report.short_axis_indices@.contains(a) <==> a < lengths.len() && lengths[a as int].lt(
            policy.minimum_length,
        )
    &&& forall|k: int|
        0 <= k < report.axis_failures@.len() ==> axis_failure_of(
            #[trigger] report.axis_failures@[k],
            prepared,
            outcome,
            lengths,
        )
    &&& forall|k: int, l: int|
        0 <= k < l < report.axis_failures@.len() ==> (#[trigger] report.axis_failures@[k]).axis < (
        #[trigger] report.axis_failures@[l]).axis
    &&& forall|a: int|
        0 <= a < outcome.axes_hold@.len() && !#[trigger] outcome.axes_hold@[a]
            ==> axis_failure_listed(report.axis_failures@, a)
    &&& report.candidate_planes@.len() == prepared.surfaces@.len()
    &&& report.surfaces@.len() == prepared.surfaces@.len()
    &&& forall|p: int|
        0 <= p < prepared.surfaces@.len() ==> #[trigger] report.candidate_planes@[p] == (
        match outcome.planes@[p] {
            Some(plane) => plane,
            None => prepared.surfaces@[p].plane,
        })
    &&& forall|p: int|
        #![trigger report.surfaces@[p]]
        0 <= p < prepared.surfaces@.len() ==> {
            &&& report.surfaces@[p].plane == (if taken {
                report.candidate_planes@[p]
            } else {
                prepared.surfaces@[p].plane
            })
            &&& report.surfaces@[p].nodes == prepared.surfaces@[p].nodes
            &&& report.surfaces@[p].source_elements == prepared.surfaces@[p].source_elements
            &&& report.surfaces@[p].stiffness_regions == prepared.surfaces@[p].stiffness_regions
        }
}

pub fn copy_points(points: &Vec<Point>) -> (r: Vec<Point>)
    ensures
        r@ == points@,
{
    let mut r: Vec<Point> = Vec::new();
    let mut i: usize = 0;
    while i < points.len()
        invariant
            i <= points.len(),
            r@ == points@.take(i as int),
        decreases points.len() - i,
    {
        r.push(points[i]);
        assert(points@.take(i + 1) =~= points@.take(i as int).push(points@[i as int]));
        i += 1;
    }
    assert(points@.take(i as int) =~= points@);
    r
}

/// The elements that an axis is made of, ascending.
pub fn elements_of_axis(axis: &Axis) -> (elements: Vec<u32>)
    ensures
        span_elements(elements@, *axis),
{
    let mut all: Vec<u32> = Vec::new();
    let mut s: usize = 0;
    while s < axis.spans.len()
        invariant
            s <= axis.spans.len(),
            all.len() == s,
            forall|k: int| 0 <= k < s ==> #[trigger] all@[k] == axis.spans@[k].element,
        decreases axis.spans.len() - s,
    {
        all.push(axis.spans[s].element);
        s += 1;
    }
    let elements = unique(all);
    proof {
        assert forall|id: u32| #[trigger] elements@.contains(id) <==> exists|k: int|
            0 <= k < axis.spans@.len() && (#[trigger] axis.spans@[k]).element == id by {
            if elements@.contains(id) {
                assert(all@.contains(id));
                let k = choose|k: int| 0 <= k < all@.len() && all@[k] == id;
                assert(axis.spans@[k].element == id);
            }
            if exists|k: int| 0 <= k < axis.spans@.len() && (#[trigger] axis.spans@[k]).element == id {
                let k = choose|k: int| 0 <= k < axis.spans@.len() && (#[trigger] axis.spans@[k]).element == id;
                assert(all@[k] == id);
                assert(all@.contains(id));
            }
        }
    }
    elements
}

#[verifier::loop_isolation(false)]
fn is_within_budget(outcome: &Outcome) -> (r: bool)
    requires
        outcome.limits@.len() == outcome.movements@.len(),
    ensures
        r == within_budget(*outcome),
{
    let mut i: usize = 0;
    while i < outcome.movements.len()
        invariant
            i <= outcome.movements.len(),
            forall|k: int| 0 <= k < i ==> (#[trigger] outcome.movements@[k]).le(outcome.limits@[k]),
        decreases outcome.movements.len() - i,
    {
        if !outcome.movements[i].at_most(&outcome.limits[i]) {
            assert(!outcome.movements@[i as int].le(outcome.limits@[i as int]));
            return false;
        }
        i += 1;
    }
    true
}

#[verifier::loop_isolation(false)]
fn is_candidate_valid(outcome: &Outcome) -> (r: bool)
    ensures
        r == candidate_valid(*outcome),
{
    let mut i: usize = 0;
    while i < outcome.candidate.len()
        invariant
            i <= outcome.candidate.len(),
            forall|k: int| 0 <= k < i ==> finite_point(#[trigger] outcome.candidate@[k]),
        decreases outcome.candidate.len() - i,
    {
        if !is_finite_point(&outcome.candidate[i]) {
            assert(!finite_point(outcome.candidate@[i as int]));
            return false;
        }
        i += 1;
    }
    let mut a: usize = 0;
    while a < outcome.axes_hold.len()
        invariant
            a <= outcome.axes_hold.len(),
            forall|k: int| 0 <= k < a ==> #[trigger] outcome.axes_hold@[k],
        decreases outcome.axes_hold.len() - a,
    {
        if !outcome.axes_hold[a] {
            assert(!outcome.axes_hold@[a as int]);
            return false;
        }
        a += 1;
    }
    true
}

#[verifier::loop_isolation(false)]
fn movement_report(prepared: &Prepared, outcome: &Outcome) -> (r: (Vec<u32>, Vec<MovementFailure>))
    requires
        ascending(prepared.node_ids@),
        prepared.budgets@.len() == prepared.node_ids@.len(),
        outcome.movements@.len() == prepared.node_ids@.len(),
        outcome.limits@.len() == prepared.node_ids@.len(),
    ensures
        ascending(r.0@),
        forall|node: u32| #[trigger]
            r.0@.contains(node) <==> over_budget_node(prepared.node_ids@, *outcome, node),
        r.1@.len() == r.0@.len(),
        forall|k: int|
            0 <= k < r.1@.len() ==> movement_failure_of(#[trigger] r.1@[k], *prepared, *outcome)
                && r.1@[k].node_id == r.0@[k],
{
    let ghost ids = prepared.node_ids@;
    let mut nodes: Vec<u32> = Vec::new();
    let mut failures: Vec<MovementFailure> = Vec::new();
    let mut i: usize = 0;
    while i < prepared.node_ids.len()
        invariant
            i <= prepared.node_ids.len(),
            ascending(nodes@),
            forall|k: int|
                0 <= k < nodes.len() ==> over_budget_node(ids, *outcome, #[trigger] nodes@[k]) && (i
                    < ids.len() ==> nodes@[k] < ids[i as int]),
            forall|k: int| 0 <= k < i && #[trigger] over_budget(*outcome, k) ==> nodes@.contains(ids[k]),
            failures.len() == nodes.len(),
            forall|k: int|
                0 <= k < failures.len() ==> movement_failure_of(
                    #[trigger] failures@[k],
                    *prepared,
                    *outcome,
                ) && failures@[k].node_id == nodes@[k],
        decreases prepared.node_ids.len() - i,
    {
        let ghost before = nodes@;
        if outcome.limits[i].less(&outcome.movements[i]) {
            assert(over_budget(*outcome, i as int));
            let failure = MovementFailure {
                node_id: prepared.node_ids[i],
                movement: outcome.movements[i],
                budget: prepared.budgets[i],
            };
            nodes.push(prepared.node_ids[i]);
            failures.push(failure);
            proof {
                assert(movement_failure_of(failure, *prepared, *outcome));
                assert(nodes@[nodes.len() - 1] == ids[i as int]);
                assert forall|x: u32| before.contains(x) implies #[trigger] nodes@.contains(x) by {
                    let m = choose|m: int| 0 <= m < before.len() && before[m] == x;
                    assert(nodes@[m] == x);
                }
            }
        }
        proof {
            assert forall|k: int| 0 <= k < nodes.len() implies over_budget_node(ids, *outcome, #[trigger] nodes@[k]) && (i + 1
                    < ids.len() ==> nodes@[k] < ids[i + 1]) by {
                if i + 1 < ids.len() {
                    assert(ids[i as int] < ids[i + 1]);
                }
                if k < before.len() {
                    assert(nodes@[k] == before[k]);
                }
            }
            assert forall|k: int| 0 <= k < i + 1 && #[trigger] over_budget(*outcome, k) implies nodes@.contains(ids[k]) by {
                if k < i {
                    assert(before.contains(ids[k]));
                }
            }
        }
        i += 1;
    }
    proof {
        assert forall|node: u32| #[trigger] nodes@.contains(node) <==> over_budget_node(ids, *outcome, node) by {
            if nodes@.contains(node) {
                let k = choose|k: int| 0 <= k < nodes@.len() && nodes@[k] == node;
                assert(over_budget_node(ids, *outcome, nodes@[k]));
            }
        }
    }
    (nodes, failures)
}

#[verifier::loop_isolation(false)]
fn axis_report(prepared: &Prepared, outcome: &Outcome, lengths: &Vec<Scalar>) -> (failures: Vec<AxisFailure>)
    requires
        outcome.axes_hold@.len() == prepared.axes@.len(),
        outcome.candidate_lengths@.len() == prepared.axes@.len(),
        lengths.len() == prepared.axes@.len(),
    ensures
        forall|k: int|
            0 <= k < failures@.len() ==> axis_failure_of(
                #[trigger] failures@[k],
                *prepared,
                *outcome,
                lengths@,
            ),
        forall|k: int, l: int|
            0 <= k < l < failures@.len() ==> (#[trigger] failures@[k]).axis < (
            #[trigger] failures@[l]).axis,
        forall|a: int|
            0 <= a < outcome.axes_hold@.len() && !#[trigger] outcome.axes_hold@[a]
                ==> axis_failure_listed(failures@, a),
{
    let mut failures: Vec<AxisFailure> = Vec::new();
    let mut a: usize = 0;
    while a < prepared.axes.len()
        invariant
            a <= prepared.axes.len(),
            forall|k: int|
                0 <= k < failures@.len() ==> axis_failure_of(
                    #[trigger] failures@[k],
                    *prepared,
                    *outcome,
                    lengths@,
                ) && failures@[k].axis < a,
            forall|k: int, l: int|
                0 <= k < l < failures@.len() ==> (#[trigger] failures@[k]).axis < (
                #[trigger] failures@[l]).axis,
            forall|b: int|
                0 <= b < a && !#[trigger] outcome.axes_hold@[b] ==> axis_failure_listed(
                    failures@,
                    b,
                ),
        decreases prepared.axes.len() - a,
    {
        let ghost before = failures@;
        if !outcome.axes_hold[a] {
            let source_elements = elements_of_axis(&prepared.axes[a]);
            failures.push(
                AxisFailure {
                    axis: a,
                    source_elements,
                    original_length: lengths[a],
                    candidate_length: outcome.candidate_lengths[a],
                },
            );
            assert(failures@[failures.len() - 1].axis == a);
            assert(axis_failure_listed(failures@, a as int));
        }
        proof {
            assert forall|b: int| axis_failure_listed(before, b) implies #[trigger] axis_failure_listed(failures@, b) by {
                let k = choose|k: int| 0 <= k < before.len() && (#[trigger] before[k]).axis == b;
                assert(failures@[k].axis == b);
            }
        }
        a += 1;
    }
    failures
}

fn short_axes(lengths: &Vec<Scalar>, minimum: &Scalar) -> (r: Vec<usize>)
    ensures
        crate::ordering::ascending_indices(r@),
        forall|a: usize| #[trigger]
            r@.contains(a) <==> a < lengths.len() && lengths@[a as int].lt(*minimum),
{
    let mut r: Vec<usize> = Vec::new();
    let mut a: usize = 0;
    while a < lengths.len()
        invariant
            a <= lengths.len(),
            crate::ordering::ascending_indices(r@),
            forall|k: int| 0 <= k < r.len() ==> #[trigger] r@[k] < a && lengths@[r@[k] as int].lt(*minimum),
            forall|b: usize| b < a && lengths@[b as int].lt(*minimum) ==> #[trigger] r@.contains(b),
        decreases lengths.len() - a,
    {
        let ghost before = r@;
        if lengths[a].less(minimum) {
            r.push(a);
            assert(r@[r.len() - 1] == a);
        }
        proof {
            assert forall|x: usize| before.contains(x) implies #[trigger] r@.contains(x) by {
                let m = choose|m: int| 0 <= m < before.len() && before[m] == x;
                assert(r@[m] == x);
            }
        }
        a += 1;
    }
    r
}

/// Judges the candidate of a solve and reports on it. The reference geometry is
/// kept unless the whole candidate is taken.
#[verifier::loop_isolation(false)]
pub fn conclude(policy: &Policy, prepared: Prepared, outcome: Outcome, lengths: &Vec<Scalar>) -> (r:
    Result<Report, &'static str>)
    requires
        outcome_fits(prepared, outcome, lengths@),
        ascending(prepared.node_ids@),
    ensures
        match r {
            Ok(report) => concluded(report, *policy, prepared, outcome, lengths@) && !(accepted(
                *policy,
                outcome,
            ) && exists|p: int| 0 <= p < outcome.planes@.len() && (#[trigger] outcome.planes@[p]) is None),
            Err(error) => error@ == "invalid solved plane"@ && accepted(*policy, outcome) && exists|
                p: int,
            | 0 <= p < outcome.planes@.len() && (#[trigger] outcome.planes@[p]) is None,
        },
{
    let within = is_within_budget(&outcome);
    let valid = is_candidate_valid(&outcome);
    let taken: bool = outcome.residual.at_most(&policy.residual_tolerance) && valid && within;
    let reason: String = if taken {
        "converged".to_string()
    } else if !within {
        "movement_budget_exceeded".to_string()
    } else if !valid {
        "invalid_axis".to_string()
    } else {
        "constraints_or_budget_not_satisfied".to_string()
    };
    let mut candidate_planes: Vec<PlaneFrame> = Vec::new();
    let mut p: usize = 0;
    while p < prepared.surfaces.len()
        invariant
            p <= prepared.surfaces.len(),
            candidate_planes.len() == p,
            forall|q: int|
                0 <= q < p ==> #[trigger] candidate_planes@[q] == (match outcome.planes@[q] {
                    Some(plane) => plane,
                    None => prepared.surfaces@[q].plane,
                }),
            taken ==> forall|q: int| 0 <= q < p ==> (#[trigger] outcome.planes@[q]) is Some,
        decreases prepared.surfaces.len() - p,
    {
        match outcome.planes[p] {
            Some(plane) => {
                candidate_planes.push(plane);
            },
            None => {
                if taken {
                    assert(outcome.planes@[p as int] is None);
                    return Err("invalid solved plane");
                }
                candidate_planes.push(prepared.surfaces[p].plane);
            },
        }
        p += 1;
    }
    let (over, movement_failures) = movement_report(&prepared, &outcome);
    let axis_failures = axis_report(&prepared, &outcome, lengths);
    let short_axis_indices = short_axes(lengths, &policy.minimum_length);
    let largest = greatest(&outcome.movements);
    let candidate_points = copy_points(&outcome.candidate);
    let points = if taken {
        copy_points(&outcome.candidate)
    } else {
        copy_points(&prepared.reference)
    };
    let ghost source = prepared.surfaces@;
    let mut remaining = prepared.surfaces;
    let mut surfaces: Vec<Surface> = Vec::new();
    let mut left: usize = remaining.len();
    while left > 0
        invariant
            left == remaining.len(),
            remaining@ == source.take(left as int),
            surfaces.len() == source.len() - left,
            candidate_planes.len() == source.len(),
            left <= source.len(),
            forall|k: int|
                #![trigger surfaces@[k]]
                0 <= k < surfaces.len() ==> {
                    let q = source.len() - 1 - k;
                    &&& surfaces@[k].plane == (if taken {
                        candidate_planes@[q]
                    } else {
                        source[q].plane
                    })
                    &&& surfaces@[k].nodes == source[q].nodes
                    &&& surfaces@[k].source_elements == source[q].source_elements
                    &&& surfaces@[k].stiffness_regions == source[q].stiffness_regions
                },
        decreases left,
    {
        match remaining.pop() {
            Some(surface) => {
                let plane = if taken {
                    candidate_planes[left - 1]
                } else {
                    surface.plane
                };
                surfaces.push(
                    Surface {
                        plane,
                        nodes: surface.nodes,
                        source_elements: surface.source_elements,
                        stiffness_regions: surface.stiffness_regions,
                    },
                );
            },
            None => {},
        }
        assert(remaining@ =~= source.take(left - 1));
        left -= 1;
    }
    let mut ordered: Vec<Surface> = Vec::new();
    let ghost reversed = surfaces@;
    let ghost total = surfaces.len();
    let mut rest: usize = surfaces.len();
    while rest > 0
        invariant
            rest == surfaces.len(),
            surfaces@ == reversed.take(rest as int),
            rest <= reversed.len(),
            ordered.len() == reversed.len() - rest,
            forall|k: int| 0 <= k < ordered.len() ==> #[trigger] ordered@[k] == reversed[reversed.len() - 1 - k],
        decreases rest,
    {
        match surfaces.pop() {
            Some(surface) => {
                ordered.push(surface);
            },
            None => {},
        }
        assert(surfaces@ =~= reversed.take(rest - 1));
        rest -= 1;
    }
    Ok(
        Report {
            policy: *policy,
            accepted: taken,
            reason,
            iterations: outcome.iterations,
            candidate_max_residual: outcome.residual,
            candidate_maximum_movement: largest,
            candidate_over_budget_node_ids: over,
            maximum_movement: if taken {
                largest
            } else {
                Scalar::zero()
            },
            node_ids: prepared.node_ids,
            reference_points: prepared.reference,
            candidate_points,
            points,
            axes: prepared.axes,
            surfaces: ordered,
            candidate_planes,
            plane_families: outcome.plane_families,
            equation_count: outcome.equation_count,
            violating_equations: outcome.violating_equations,
            short_axis_indices,
            largest_constraint_failures: outcome.constraint_failures,
            movement_failures,
            axis_failures,
        },
    )
}

/// A refused candidate leaves every point where it was; an accepted one moves
/// no node beyond its limit.
pub proof fn refused_candidate_moves_nothing(
    report: Report,
    policy: Policy,
    prepared: Prepared,
    outcome: Outcome,
    lengths: Seq<Scalar>,
)
    requires
        outcome_fits(prepared, outcome, lengths),
        concluded(report, policy, prepared, outcome, lengths),
    ensures
        !report.accepted ==> report.points@ == report.reference_points@ && report.maximum_movement
            == Scalar::spec_zero(),
        report.accepted ==> report.candidate_over_budget_node_ids@.len() == 0
            && report.axis_failures@.len() == 0,
{
    if report.accepted {
        if report.candidate_over_budget_node_ids@.len() > 0 {
            let node = report.candidate_over_budget_node_ids@[0];
            assert(report.candidate_over_budget_node_ids@.contains(node));
            let i = choose|i: int| 0 <= i < prepared.node_ids@.len() && #[trigger] over_budget(outcome, i) && prepared.node_ids@[i] == node;
            assert(outcome.movements@[i].le(outcome.limits@[i]));
        }
        if report.axis_failures@.len() > 0 {
            assert(axis_failure_of(report.axis_failures@[0], prepared, outcome, lengths));
        }
    }
}

/// A candidate is taken exactly when its constraints are met, its points finite, its axes held
/// and no node is beyond its limit.
pub proof fn sound_candidates_are_taken(policy: Policy, outcome: Outcome)
    ensures
        accepted(policy, outcome) <==> {
            &&& outcome.residual.le(policy.residual_tolerance)
            &&& forall|i: int| 0 <= i < outcome.candidate@.len() ==> finite_point(#[trigger] outcome.candidate@[i])
            &&& forall|a: int| 0 <= a < outcome.axes_hold@.len() ==> #[trigger] outcome.axes_hold@[a]
            &&& forall|i: int| 0 <= i < outcome.movements@.len() ==> (#[trigger] outcome.movements@[i]).le(outcome.limits@[i])
        },
{
}

/// The verdict on a candidate: it converged exactly when it is taken; otherwise a budget that is
/// exceeded is named before an axis that fails, and that before constraints.
pub proof fn verdicts_name_the_first_fault(policy: Policy, outcome: Outcome)
    ensures
        verdict(policy, outcome) == "converged"@ <==> accepted(policy, outcome),
        verdict(policy, outcome) == "movement_budget_exceeded"@ <==> exists|i: int|
            0 <= i < outcome.movements@.len() && !(#[trigger] outcome.movements@[i]).le(outcome.limits@[i]),
        !accepted(policy, outcome) && within_budget(outcome) ==> (verdict(policy, outcome) == "invalid_axis"@
            <==> !candidate_valid(outcome)),
        !accepted(policy, outcome) && within_budget(outcome) && candidate_valid(outcome) ==> verdict(policy, outcome)
            == "constraints_or_budget_not_satisfied"@,
{
    reveal_strlit("converged");
    reveal_strlit("movement_budget_exceeded");
    reveal_strlit("invalid_axis");
    reveal_strlit("constraints_or_budget_not_satisfied");
    assert("converged"@.len() == 9 && "movement_budget_exceeded"@.len() == 24);
    assert("invalid_axis"@.len() == 12 && "constraints_or_budget_not_satisfied"@.len() == 35);
}

/// A report gives the points it took: the candidate where it was accepted, the source else.
/// It keeps both for comparison.
pub proof fn reports_keep_both_geometries(report: Report, policy: Policy, prepared: Prepared, outcome: Outcome, lengths: Seq<Scalar>, p: int)
    requires
        outcome_fits(prepared, outcome, lengths),
        concluded(report, policy, prepared, outcome, lengths),
        0 <= p < prepared.surfaces@.len(),
    ensures
        report.accepted ==> report.points@ == outcome.candidate@ && report.surfaces@[p].plane == report.candidate_planes@[p],
        !report.accepted ==> report.points@ == prepared.reference@ && report.surfaces@[p].plane == prepared.surfaces@[p].plane,
        report.candidate_points@ == outcome.candidate@,
        report.reference_points@ == prepared.reference@,
        report.node_ids@ == prepared.node_ids@,
        report.surfaces@[p].source_elements == prepared.surfaces@[p].source_elements,
        report.surfaces@[p].stiffness_regions == prepared.surfaces@[p].stiffness_regions,
        report.candidate_max_residual == outcome.residual,
        forall|i: int| 0 <= i < outcome.movements@.len() ==> !report.candidate_maximum_movement.lt(#[trigger] outcome.movements@[i]),
{
    assert(report.surfaces@[p].plane == report.surfaces@[p].plane);
    assert forall|i: int| 0 <= i < outcome.movements@.len() implies !report.candidate_maximum_movement.lt(#[trigger] outcome.movements@[i]) by {
        crate::scalar::greatest_bounds(outcome.movements@, i);
    }
}

/// Every node beyond its limit, and no other, is reported with its movement and its budget.
pub proof fn nodes_over_budget_are_reported(
    report: Report,
    policy: Policy,
    prepared: Prepared,
    outcome: Outcome,
    lengths: Seq<Scalar>,
    i: int,
)
    requires
        outcome_fits(prepared, outcome, lengths),
        ascending(prepared.node_ids@),
        concluded(report, policy, prepared, outcome, lengths),
        0 <= i < prepared.node_ids@.len(),
    ensures
        report.candidate_over_budget_node_ids@.contains(prepared.node_ids@[i]) <==> outcome.limits@[i].lt(outcome.movements@[i]),
        outcome.limits@[i].lt(outcome.movements@[i]) ==> report.movement_failures@.contains(
            MovementFailure {
                node_id: prepared.node_ids@[i],
                movement: outcome.movements@[i],
                budget: prepared.budgets@[i],
            },
        ),
{
    let node = prepared.node_ids@[i];
    let ids = prepared.node_ids@;
    if outcome.limits@[i].lt(outcome.movements@[i]) {
        assert(over_budget(outcome, i));
        assert(over_budget_node(ids, outcome, node));
        let listed = report.candidate_over_budget_node_ids@;
        assert(listed.contains(node));
        let k = choose|k: int| 0 <= k < listed.len() && listed[k] == node;
        assert(movement_failure_of(report.movement_failures@[k], prepared, outcome));
        let j = choose|j: int|
            0 <= j < ids.len() && #[trigger] over_budget(outcome, j) && report.movement_failures@[k] == (MovementFailure {
                node_id: ids[j],
                movement: outcome.movements@[j],
                budget: prepared.budgets@[j],
            });
        assert(ids[j] == node);
        if i < j {
            assert(ids[i] < ids[j]);
        } else if j < i {
            assert(ids[j] < ids[i]);
        }
    }
    if report.candidate_over_budget_node_ids@.contains(node) {
        let j = choose|j: int| 0 <= j < ids.len() && #[trigger] over_budget(outcome, j) && ids[j] == node;
        if i < j {
            assert(ids[i] < ids[j]);
        } else if j < i {
            assert(ids[j] < ids[i]);
        }
    }
}

/// An axis is reported to fail exactly when it does not hold, with its length before and
/// after.
pub proof fn failing_axes_are_reported(
    report: Report,
    policy: Policy,
    prepared: Prepared,
    outcome: Outcome,
    lengths: Seq<Scalar>,
    a: int,
)
    requires
        outcome_fits(prepared, outcome, lengths),
        concluded(report, policy, prepared, outcome, lengths),
        0 <= a < outcome.axes_hold@.len(),
    ensures
        outcome.axes_hold@[a] <==> forall|k: int|
            0 <= k < report.axis_failures@.len() ==> (#[trigger] report.axis_failures@[k]).axis != a,
        forall|k: int|
            0 <= k < report.axis_failures@.len() && (#[trigger] report.axis_failures@[k]).axis == a
                ==> report.axis_failures@[k].original_length == lengths[a] && report.axis_failures@[k].candidate_length
                == outcome.candidate_lengths@[a],
{
    if !outcome.axes_hold@[a] {
        assert(axis_failure_listed(report.axis_failures@, a));
    }
    assert forall|k: int| 0 <= k < report.axis_failures@.len() && (#[trigger] report.axis_failures@[k]).axis == a implies report.axis_failures@[k].original_length
        == lengths[a] && report.axis_failures@[k].candidate_length == outcome.candidate_lengths@[a] && !outcome.axes_hold@[a] by {
        assert(axis_failure_of(report.axis_failures@[k], prepared, outcome, lengths));
    }
}

proof fn no_axis_error(axes: Seq<RecognizedAxis>, ids: Seq<u32>, lengths: Seq<Scalar>, policy: Policy, from: int, a: int)
    requires
        first_axis_error(axes, ids, lengths, policy, from) is None,
        0 <= from <= a < axes.len(),
    ensures
        axis_error(axes[a], ids, lengths[a], policy) is None,
    decreases a - from,
{
    if from < a {
        no_axis_error(axes, ids, lengths, policy, from + 1, a);
    }
}

/// A solve is set up only over placed nodes and over axes that are longer than the tolerance,
/// with known ends and with every anchor between its start and its end.
pub proof fn solves_are_over_sound_axes(
    mesh: MeshData,
    axes: Seq<RecognizedAxis>,
    patches: Seq<Patch>,
    policy: Policy,
    up_length: Scalar,
    ids: Seq<u32>,
    lengths: Seq<Scalar>,
    a: int,
    k: int,
)
    requires
        prepare_error(mesh, axes, patches, policy, up_length, ids, lengths) is None,
        0 <= a < axes.len(),
        0 <= k < axes[a].anchors@.len(),
    ensures
        ids.contains(axes[a].endpoint_nodes[0]) && ids.contains(axes[a].endpoint_nodes[1]),
        Scalar::spec_zero().le(axes[a].anchors@[k].t) && axes[a].anchors@[k].t.le(Scalar::spec_one()),
        lengths[a].finite() && !lengths[a].le(policy.residual_tolerance),
        forall|i: int| 0 <= i < ids.len() ==> placed(mesh, #[trigger] ids[i]),
        forall|p: int| 0 <= p < patches.len() ==> (#[trigger] patches[p]).source_nodes@.len() > 0,
        policy.iterations > 0 && positive(policy.residual_tolerance) && positive(policy.maximum_movement),
{
    no_axis_error(axes, ids, lengths, policy, 0, a);
    assert(in_unit_interval(axes[a].anchors@[k].t));
}

/// A node that the solve moves starts where the scheme has it, and may move no farther than the
/// common bound and than each axis at it allows.
pub proof fn solved_nodes_start_at_their_source(
    prepared: Prepared,
    mesh: MeshData,
    axes: Seq<RecognizedAxis>,
    patches: Seq<Patch>,
    policy: Policy,
    caps: Seq<Scalar>,
    i: int,
    a: int,
    k: int,
)
    requires
        prepared_for(prepared, mesh, axes, patches, policy, caps),
        0 <= i < prepared.node_ids@.len(),
        0 <= a < axes.len(),
        0 <= k < axes[a].anchors@.len(),
    ensures
        prepared.reference@[i] == mesh.nodes@[prepared.node_ids@[i]],
        !policy.maximum_movement.lt(prepared.budgets@[i]),
        axes[a].anchors@[k].node == prepared.node_ids@[i] ==> !caps[a].lt(prepared.budgets@[i]),
        prepared.node_ids@[prepared.axes@[a].anchors@[k].node as int] == axes[a].anchors@[k].node,
        prepared.axes@[a].anchors@[k].t == axes[a].anchors@[k].t,
        prepared.node_ids@[prepared.axes@[a].endpoints[0] as int] == axes[a].endpoint_nodes[0],
        prepared.node_ids@[prepared.axes@[a].endpoints[1] as int] == axes[a].endpoint_nodes[1],
        prepared.axes@[a].spans@ == axes[a].spans@,
{
    assert(node_budget(prepared.budgets@[i], prepared.node_ids@[i], axes, caps, policy.maximum_movement));
    assert(indexed_axis(prepared.axes@[a], axes[a], prepared.node_ids@));
    assert(prepared.reference@[i] == mesh.nodes@[prepared.node_ids@[i]]);
    if axes[a].anchors@[k].node == prepared.node_ids@[i] {
        assert(axis_uses(axes[a], prepared.node_ids@[i]));
    }
    assert(prepared.axes@[a].anchors@[k].node < prepared.node_ids@.len());
}

/// An axis of the frame has the ends, the anchors and the spans of the axis that was recognized,
/// with its nodes by their places.
pub proof fn indexed_axes_are_the_recognized(axis: Axis, source: RecognizedAxis, ids: Seq<u32>, k: int)
    requires
        indexed_axis(axis, source, ids),
        0 <= k < source.anchors@.len(),
    ensures
        ids[axis.endpoints[0] as int] == source.endpoint_nodes[0],
        ids[axis.endpoints[1] as int] == source.endpoint_nodes[1],
        axis.anchors@.len() == source.anchors@.len(),
        ids[axis.anchors@[k].node as int] == source.anchors@[k].node,
        axis.anchors@[k].t == source.anchors@[k].t,
        axis.spans@ == source.spans@,
{
}

/// A surface of the frame has the plane, the nodes, the elements and the regions of its patch.
pub proof fn indexed_surfaces_are_their_patch(surface: Surface, patch: Patch, ids: Seq<u32>, k: int, r: int)
    requires
        indexed_surface(surface, patch, ids),
        0 <= k < patch.source_nodes@.len(),
        0 <= r < patch.stiffness_regions@.len(),
    ensures
        surface.plane == patch.plane,
        surface.nodes@.len() == patch.source_nodes@.len(),
        ids[surface.nodes@[k] as int] == patch.source_nodes@[k],
        surface.source_elements@ == patch.source_elements@,
        surface.stiffness_regions@.len() == patch.stiffness_regions@.len(),
        surface.stiffness_regions@[r].stiffness == patch.stiffness_regions@[r].stiffness,
        surface.stiffness_regions@[r].elements@ == patch.stiffness_regions@[r].elements@,
{
}

} // verus!
