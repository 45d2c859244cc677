//! One transactional pass over movable, non-branching boundary anchors.
use vstd::prelude::*;
use crate::connectivity::{components_of, linked_groups, share_label};
use crate::input::Point;
use crate::ordering::{ascending, ascending_indices, find_id, unique, unique_indices};
use crate::points::PointTable;
use crate::reconstruction::assembly::bars::joints::{find_joint, joints_sorted, Joint};
use crate::reconstruction::assembly::holes::numbers_of;
use crate::reconstruction::frame;
use crate::reconstruction::{Model, Surface};
use crate::scalar::Scalar;

verus! {

#[derive(Debug, Clone, Copy)]
pub struct Change {
    pub source_node: u32,
    pub before: Point,
    pub after: Point,
}

#[derive(Debug)]
pub struct Repair {
    pub source_axes: Vec<usize>,
    pub surfaces: Vec<usize>,
    pub accepted: bool,
    pub reason: String,
    pub changes: Vec<Change>,
}

pub open spec fn boundaries_known(surfaces: Seq<Surface>, edges: int) -> bool {
    forall|s: int, r: int, k: int|
        0 <= s < surfaces.len() && 0 <= r < surfaces[s].boundaries@.len() && 0 <= k
            < surfaces[s].boundaries@[r]@.len() ==> (#[trigger] surfaces[s].boundaries@[r]@[k]).edge < edges
}

pub open spec fn edges_known(edges: Seq<[usize; 2]>, vertices: int) -> bool {
    forall|e: int| 0 <= e < edges.len() ==> (#[trigger] edges[e])[0] < vertices && edges[e][1] < vertices
}

/// An end of the edge is at the node.
pub open spec fn edge_meets(edge: [usize; 2], nodes: Seq<u32>, node: u32) -> bool {
    nodes[edge[0] as int] == node || nodes[edge[1] as int] == node
}

/// The boundary ring of the surface passes through the node.
pub open spec fn ring_passes(
    surface: Surface,
    ring: int,
    edges: Seq<[usize; 2]>,
    nodes: Seq<u32>,
    node: u32,
) -> bool {
    exists|k: int|
        0 <= k < surface.boundaries@[ring]@.len() && edge_meets(
            edges[(#[trigger] surface.boundaries@[ring]@[k]).edge as int],
            nodes,
            node,
        )
}

pub open spec fn end_node(source: frame::Report, node: u32) -> bool {
    exists|a: int|
        0 <= a < source.axes@.len() && (source.node_ids@[(#[trigger] source.axes@[a]).endpoints[0] as int]
            == node || source.node_ids@[source.axes@[a].endpoints[1] as int] == node)
}

pub open spec fn hole_node(surfaces: Seq<Surface>, edges: Seq<[usize; 2]>, nodes: Seq<u32>, node: u32) -> bool {
    exists|s: int, r: int|
        0 <= s < surfaces.len() && 1 <= r < surfaces[s].boundaries@.len() && #[trigger] ring_passes(
            surfaces[s],
            r,
            edges,
            nodes,
            node,
        )
}

/// No movement of axis ends or hole boundaries: they need a coupled solve.
pub open spec fn protected(
    source: frame::Report,
    surfaces: Seq<Surface>,
    edges: Seq<[usize; 2]>,
    nodes: Seq<u32>,
    node: u32,
) -> bool {
    end_node(source, node) || hole_node(surfaces, edges, nodes, node)
}

pub open spec fn ends_known(source: frame::Report) -> bool {
    forall|a: int|
        0 <= a < source.axes@.len() ==> (#[trigger] source.axes@[a]).endpoints[0] < source.node_ids@.len()
            && source.axes@[a].endpoints[1] < source.node_ids@.len()
}

proof fn grown<T>(before: Seq<T>, after: Seq<T>, x: T)
    requires
        before.contains(x),
        after.len() >= before.len(),
        forall|i: int| 0 <= i < before.len() ==> after[i] == before[i],
    ensures
        after.contains(x),
{
    let i = choose|i: int| 0 <= i < before.len() && before[i] == x;
    assert(after[i] == x);
}

/// The nodes that no repair moves, ascending.
#[verifier::loop_isolation(false)]
pub fn protected_nodes(
    source: &frame::Report,
    surfaces: &Vec<Surface>,
    edges: &Vec<[usize; 2]>,
    nodes: &Vec<u32>,
) -> (r: Vec<u32>)
    requires
        ends_known(*source),
        boundaries_known(surfaces@, edges@.len() as int),
        edges_known(edges@, nodes@.len() as int),
    ensures
        ascending(r@),
        forall|node: u32| #[trigger]
            r@.contains(node) <==> protected(*source, surfaces@, edges@, nodes@, node),
{
    let mut all: Vec<u32> = Vec::new();
    let mut a: usize = 0;
    while a < source.axes.len()
        invariant
            a <= source.axes.len(),
            forall|i: int| 0 <= i < all@.len() ==> end_node(*source, #[trigger] all@[i]),
            forall|b: int| 0 <= b < a ==> all@.contains(source.node_ids@[(#[trigger] source.axes@[b]).endpoints[0] as int])
                && all@.contains(source.node_ids@[source.axes@[b].endpoints[1] as int]),
        decreases source.axes.len() - a,
    {
        let ghost before = all@;
        let ends: [usize; 2] = source.axes[a].endpoints;
        assert(source.axes@[a as int].endpoints[0] < source.node_ids@.len());
        let first: u32 = source.node_ids[ends[0]];
        let second: u32 = source.node_ids[ends[1]];
        all.push(first);
        all.push(second);
        proof {
            assert(end_node(*source, first) && end_node(*source, second)) by {
                assert(source.node_ids@[source.axes@[a as int].endpoints[0] as int] == first);
            }
            assert(all@[before.len() as int] == first);
            assert(all@[(before.len() + 1) as int] == second);
            assert forall|b: int| 0 <= b < a implies all@.contains(source.node_ids@[(#[trigger] source.axes@[b]).endpoints[0] as int])
                && all@.contains(source.node_ids@[source.axes@[b].endpoints[1] as int]) by {
                grown(before, all@, source.node_ids@[source.axes@[b].endpoints[0] as int]);
                grown(before, all@, source.node_ids@[source.axes@[b].endpoints[1] as int]);
            }
            assert forall|i: int| 0 <= i < all@.len() implies end_node(*source, #[trigger] all@[i]) by {
                if i < before.len() {
                    assert(all@[i] == before[i]);
                }
            }
        }
        a += 1;
    }
    let ghost base = all@;
    let mut s: usize = 0;
    while s < surfaces.len()
        invariant
            s <= surfaces.len(),
            forall|i: int| 0 <= i < all@.len() ==> protected(*source, surfaces@, edges@, nodes@, #[trigger] all@[i]),
            forall|x: u32| base.contains(x) ==> #[trigger] all@.contains(x),
            forall|t: int, r: int, x: u32|
                0 <= t < s && 1 <= r < surfaces@[t].boundaries@.len() && #[trigger] ring_passes(surfaces@[t], r, edges@, nodes@, x) ==> all@.contains(x),
        decreases surfaces.len() - s,
    {
        let ghost surface = surfaces@[s as int];
        let mut r: usize = 1;
        while r < surfaces[s].boundaries.len()
            invariant
                s < surfaces.len(),
                surface == surfaces@[s as int],
                1 <= r,
                r <= surface.boundaries@.len() || r == 1,
                forall|i: int| 0 <= i < all@.len() ==> protected(*source, surfaces@, edges@, nodes@, #[trigger] all@[i]),
                forall|x: u32| base.contains(x) ==> #[trigger] all@.contains(x),
                forall|t: int, q: int, x: u32|
                    0 <= t < s && 1 <= q < surfaces@[t].boundaries@.len() && #[trigger] ring_passes(surfaces@[t], q, edges@, nodes@, x) ==> all@.contains(x),
                forall|q: int, x: u32| 1 <= q < r && #[trigger] ring_passes(surface, q, edges@, nodes@, x) ==> all@.contains(x),
            decreases surface.boundaries@.len() - r,
        {
            let ghost ring = surface.boundaries@[r as int]@;
            let ghost start = all@;
            let mut k: usize = 0;
            while k < surfaces[s].boundaries[r].len()
                invariant
                    s < surfaces.len(),
                    surface == surfaces@[s as int],
                    1 <= r < surface.boundaries@.len(),
                    ring == surface.boundaries@[r as int]@,
                    k <= ring.len(),
                    start.len() <= all@.len(),
                    forall|i: int| 0 <= i < start.len() ==> all@[i] == start[i],
                    forall|i: int| 0 <= i < all@.len() ==> protected(*source, surfaces@, edges@, nodes@, #[trigger] all@[i]),
                    forall|m: int, x: u32| 0 <= m < k && #[trigger] edge_meets(edges@[ring[m].edge as int], nodes@, x) ==> all@.contains(x),
                decreases ring.len() - k,
            {
                let ghost before = all@;
                assert(surfaces@[s as int].boundaries@[r as int]@[k as int].edge < edges@.len());
                let edge: [usize; 2] = edges[surfaces[s].boundaries[r][k].edge];
                let first: u32 = nodes[edge[0]];
                let second: u32 = nodes[edge[1]];
                all.push(first);
                all.push(second);
                proof {
                    let here = surface.boundaries@[r as int]@[k as int];
                    assert(edges@[here.edge as int] == edge);
                    assert(edge_meets(edges@[here.edge as int], nodes@, first));
                    assert(edge_meets(edges@[here.edge as int], nodes@, second));
                    assert(ring_passes(surface, r as int, edges@, nodes@, first));
                    assert(ring_passes(surface, r as int, edges@, nodes@, second));
                    assert(ring_passes(surfaces@[s as int], r as int, edges@, nodes@, first));
                    assert(hole_node(surfaces@, edges@, nodes@, first));
                    assert(hole_node(surfaces@, edges@, nodes@, second));
                    assert forall|i: int| 0 <= i < all@.len() implies protected(*source, surfaces@, edges@, nodes@, #[trigger] all@[i]) by {
                        if i < before.len() {
                            assert(all@[i] == before[i]);
                        }
                    }
                    assert forall|m: int, x: u32| 0 <= m < k + 1 && #[trigger] edge_meets(edges@[ring[m].edge as int], nodes@, x) implies all@.contains(x) by {
                        if m < k {
                            grown(before, all@, x);
                        } else {
                            assert(all@[before.len() as int] == first);
                            assert(all@[(before.len() + 1) as int] == second);
                        }
                    }
                }
                k += 1;
            }
            proof {
                assert forall|x: u32| base.contains(x) implies #[trigger] all@.contains(x) by {
                    grown(start, all@, x);
                }
                assert forall|t: int, q: int, x: u32|
                    0 <= t < s && 1 <= q < surfaces@[t].boundaries@.len() && #[trigger] ring_passes(surfaces@[t], q, edges@, nodes@, x) implies all@.contains(x) by {
                    grown(start, all@, x);
                }
                assert forall|q: int, x: u32| 1 <= q < r + 1 && #[trigger] ring_passes(surface, q, edges@, nodes@, x) implies all@.contains(x) by {
                    if q < r {
                        grown(start, all@, x);
                    } else {
                        let m = choose|m: int| 0 <= m < ring.len() && edge_meets(edges@[(#[trigger] surface.boundaries@[q]@[m]).edge as int], nodes@, x);
                        assert(edge_meets(edges@[ring[m].edge as int], nodes@, x));
                    }
                }
            }
            r += 1;
        }
        s += 1;
    }
    let ghost listed = all@;
    let r = unique(all);
    proof {
        assert forall|node: u32| #[trigger] r@.contains(node) <==> protected(*source, surfaces@, edges@, nodes@, node) by {
            assert(r@.contains(node) <==> listed.contains(node));
            if listed.contains(node) {
                let i = choose|i: int| 0 <= i < listed.len() && listed[i] == node;
                assert(protected(*source, surfaces@, edges@, nodes@, listed[i]));
            }
            if end_node(*source, node) {
                let b = choose|b: int| 0 <= b < source.axes@.len() && (source.node_ids@[(#[trigger] source.axes@[b]).endpoints[0] as int] == node || source.node_ids@[source.axes@[b].endpoints[1] as int] == node);
                assert(base.contains(source.node_ids@[source.axes@[b].endpoints[0] as int]) && base.contains(source.node_ids@[source.axes@[b].endpoints[1] as int]));
                assert(listed.contains(node));
            }
        }
    }
    r
}

/// The node may be moved to straighten its axis.
pub open spec fn movable(
    vertices: Seq<u32>,
    fixed: Seq<u32>,
    joints: Seq<Joint>,
    node: u32,
) -> bool {
    &&& vertices.contains(node)
    &&& !fixed.contains(node)
    &&& exists|j: int|
        0 <= j < joints.len() && (#[trigger] joints[j]).node == node && joints[j].axes@.len() == 1
}

pub open spec fn anchor_node(axis: frame::Axis, ids: Seq<u32>, node: u32) -> bool {
    exists|k: int|
        0 <= k < axis.anchors@.len() && ids[(#[trigger] axis.anchors@[k]).node as int] == node
}

/// The nodes of an axis that a repair may move, ascending.
#[verifier::loop_isolation(false)]
pub fn movable_nodes(
    axis: &frame::Axis,
    ids: &Vec<u32>,
    vertices: &Vec<u32>,
    fixed: &Vec<u32>,
    joints: &Vec<Joint>,
) -> (r: Vec<u32>)
    requires
        ascending(vertices@),
        ascending(fixed@),
        joints_sorted(joints@),
        forall|k: int| 0 <= k < axis.anchors@.len() ==> (#[trigger] axis.anchors@[k]).node < ids@.len(),
    ensures
        ascending(r@),
        forall|node: u32| #[trigger]
            r@.contains(node) <==> anchor_node(*axis, ids@, node) && movable(vertices@, fixed@, joints@, node),
{
    let mut all: Vec<u32> = Vec::new();
    let mut k: usize = 0;
    while k < axis.anchors.len()
        invariant
            k <= axis.anchors.len(),
            forall|i: int| 0 <= i < all@.len() ==> anchor_node(*axis, ids@, #[trigger] all@[i]) && movable(vertices@, fixed@, joints@, all@[i]),
            forall|m: int| 0 <= m < k && movable(vertices@, fixed@, joints@, ids@[(#[trigger] axis.anchors@[m]).node as int]) ==> all@.contains(ids@[axis.anchors@[m].node as int]),
        decreases axis.anchors.len() - k,
    {
        let ghost before = all@;
        assert(axis.anchors@[k as int].node < ids@.len());
        let node: u32 = ids[axis.anchors[k].node];
        let single: bool = match find_joint(joints, node) {
            Some(j) => {
                proof {
                    assert forall|i: int| 0 <= i < joints@.len() && (#[trigger] joints@[i]).node == node implies i == j by {
                        assert(joints@[j as int].node == node);
                    }
                }
                joints[j].axes.len() == 1
            },
            None => false,
        };
        if single && find_id(vertices, node).is_some() && find_id(fixed, node).is_none() {
            all.push(node);
            assert(all@[before.len() as int] == node);
            assert(anchor_node(*axis, ids@, node));
        }
        proof {
            assert forall|i: int| 0 <= i < all@.len() implies anchor_node(*axis, ids@, #[trigger] all@[i]) && movable(vertices@, fixed@, joints@, all@[i]) by {
                if i < before.len() {
                    assert(all@[i] == before[i]);
                }
            }
            assert forall|m: int| 0 <= m < k && movable(vertices@, fixed@, joints@, ids@[(#[trigger] axis.anchors@[m]).node as int]) implies all@.contains(ids@[axis.anchors@[m].node as int]) by {
                grown(before, all@, ids@[axis.anchors@[m].node as int]);
            }
        }
        k += 1;
    }
    let ghost listed = all@;
    let r = unique(all);
    proof {
        assert forall|node: u32| #[trigger] r@.contains(node) <==> anchor_node(*axis, ids@, node) && movable(vertices@, fixed@, joints@, node) by {
            assert(r@.contains(node) <==> listed.contains(node));
            if listed.contains(node) {
                let i = choose|i: int| 0 <= i < listed.len() && listed[i] == node;
                assert(anchor_node(*axis, ids@, listed[i]));
            }
            if anchor_node(*axis, ids@, node) && movable(vertices@, fixed@, joints@, node) {
                let m = choose|m: int| 0 <= m < axis.anchors@.len() && ids@[(#[trigger] axis.anchors@[m]).node as int] == node;
                assert(listed.contains(ids@[axis.anchors@[m].node as int]));
            }
        }
    }
    r
}

/// Some boundary of the surface passes through one of the nodes.
pub open spec fn surface_meets(
    surface: Surface,
    edges: Seq<[usize; 2]>,
    nodes: Seq<u32>,
    moved: Seq<u32>,
) -> bool {
    exists|r: int, x: u32|
        0 <= r < surface.boundaries@.len() && moved.contains(x) && #[trigger] ring_passes(
            surface,
            r,
            edges,
            nodes,
            x,
        )
}

#[verifier::loop_isolation(false)]
fn meets_moved(surface: &Surface, edges: &Vec<[usize; 2]>, nodes: &Vec<u32>, moved: &Vec<u32>) -> (r: bool)
    requires
        ascending(moved@),
        forall|r: int, k: int|
            0 <= r < surface.boundaries@.len() && 0 <= k < surface.boundaries@[r]@.len() ==> (#[trigger] surface.boundaries@[r]@[k]).edge < edges@.len(),
        edges_known(edges@, nodes@.len() as int),
    ensures
        r == surface_meets(*surface, edges@, nodes@, moved@),
{
    let mut r: usize = 0;
    while r < surface.boundaries.len()
        invariant
            r <= surface.boundaries.len(),
            forall|q: int, x: u32| 0 <= q < r && moved@.contains(x) ==> !#[trigger] ring_passes(*surface, q, edges@, nodes@, x),
        decreases surface.boundaries.len() - r,
    {
        let mut k: usize = 0;
        while k < surface.boundaries[r].len()
            invariant
                r < surface.boundaries.len(),
                k <= surface.boundaries@[r as int]@.len(),
                forall|m: int, x: u32| 0 <= m < k && moved@.contains(x) ==> !#[trigger] edge_meets(edges@[surface.boundaries@[r as int]@[m].edge as int], nodes@, x),
            decreases surface.boundaries@[r as int]@.len() - k,
        {
            assert(surface.boundaries@[r as int]@[k as int].edge < edges@.len());
            let edge: [usize; 2] = edges[surface.boundaries[r][k].edge];
            let first: u32 = nodes[edge[0]];
            let second: u32 = nodes[edge[1]];
            assert(edges@[surface.boundaries@[r as int]@[k as int].edge as int] == edge);
            if find_id(moved, first).is_some() {
                assert(moved@.contains(first));
                assert(edge_meets(edges@[surface.boundaries@[r as int]@[k as int].edge as int], nodes@, first));
                assert(ring_passes(*surface, r as int, edges@, nodes@, first));
                return true;
            }
            if find_id(moved, second).is_some() {
                assert(moved@.contains(second));
                assert(edge_meets(edges@[surface.boundaries@[r as int]@[k as int].edge as int], nodes@, second));
                assert(ring_passes(*surface, r as int, edges@, nodes@, second));
                return true;
            }
            k += 1;
        }
        assert forall|q: int, x: u32| 0 <= q < r + 1 && moved@.contains(x) implies !#[trigger] ring_passes(*surface, q, edges@, nodes@, x) by {
            if q == r && ring_passes(*surface, q, edges@, nodes@, x) {
                let m = choose|m: int| 0 <= m < surface.boundaries@[q]@.len() && edge_meets(edges@[(#[trigger] surface.boundaries@[q]@[m]).edge as int], nodes@, x);
                assert(edge_meets(edges@[surface.boundaries@[r as int]@[m].edge as int], nodes@, x));
            }
        }
        r += 1;
    }
    false
}

pub open spec fn affected_of(
    affected: Seq<usize>,
    surfaces: Seq<Surface>,
    edges: Seq<[usize; 2]>,
    nodes: Seq<u32>,
    moved: Seq<u32>,
) -> bool {
    &&& ascending_indices(affected)
    &&& forall|s: usize| #[trigger]
        affected.contains(s) <==> s < surfaces.len() && surface_meets(
            surfaces[s as int],
            edges,
            nodes,
            moved,
        )
}

/// The surfaces with a boundary through one of the moved nodes, ascending.
#[verifier::loop_isolation(false)]
pub fn affected_surfaces(
    surfaces: &Vec<Surface>,
    edges: &Vec<[usize; 2]>,
    nodes: &Vec<u32>,
    moved: &Vec<u32>,
) -> (r: Vec<usize>)
    requires
        ascending(moved@),
        boundaries_known(surfaces@, edges@.len() as int),
        edges_known(edges@, nodes@.len() as int),
    ensures
        affected_of(r@, surfaces@, edges@, nodes@, moved@),
{
    let mut r: Vec<usize> = Vec::new();
    let mut s: usize = 0;
    while s < surfaces.len()
        invariant
            s <= surfaces.len(),
            ascending_indices(r@),
            forall|i: int| 0 <= i < r@.len() ==> #[trigger] r@[i] < s && surface_meets(surfaces@[r@[i] as int], edges@, nodes@, moved@),
            forall|t: usize| t < s && surface_meets(surfaces@[t as int], edges@, nodes@, moved@) ==> #[trigger] r@.contains(t),
        decreases surfaces.len() - s,
    {
        let ghost before = r@;
        assert forall|q: int, k: int|
            0 <= q < surfaces@[s as int].boundaries@.len() && 0 <= k < surfaces@[s as int].boundaries@[q]@.len() implies (#[trigger] surfaces@[s as int].boundaries@[q]@[k]).edge < edges@.len() by {
        }
        if meets_moved(&surfaces[s], edges, nodes, moved) {
            r.push(s);
            assert(r@[before.len() as int] == s);
        }
        proof {
            assert forall|t: usize| t < s + 1 && surface_meets(surfaces@[t as int], edges@, nodes@, moved@) implies #[trigger] r@.contains(t) by {
                if t < s {
                    grown(before, r@, t);
                }
            }
            assert forall|i: int| 0 <= i < r@.len() implies #[trigger] r@[i] < s + 1 && surface_meets(surfaces@[r@[i] as int], edges@, nodes@, moved@) by {
                if i < before.len() {
                    assert(r@[i] == before[i]);
                }
            }
        }
        s += 1;
    }
    r
}

/// Positions that would straighten one axis.
#[derive(Debug)]
pub struct Proposal {
    pub axis: usize,
    pub nodes: Vec<u32>,
    pub targets: Vec<Point>,
    pub affected: Vec<usize>,
}

/// The movable nodes that the relaxed axis puts elsewhere.
pub open spec fn moved_nodes(distances: Seq<Scalar>, precision: Scalar, upto: int) -> Seq<int>
    decreases upto,
{
    if upto <= 0 {
        Seq::empty()
    } else if precision.lt(distances[upto - 1]) {
        moved_nodes(distances, precision, upto - 1).push(upto - 1)
    } else {
        moved_nodes(distances, precision, upto - 1)
    }
}

spec fn climbs(list: Seq<int>, bound: int) -> bool {
    &&& forall|k: int| 0 <= k < list.len() ==> 0 <= #[trigger] list[k] < bound
    &&& forall|k: int, l: int| 0 <= k < l < list.len() ==> list[k] < list[l]
}

proof fn moved_nodes_climb(distances: Seq<Scalar>, precision: Scalar, upto: int)
    requires
        0 <= upto,
    ensures
        climbs(moved_nodes(distances, precision, upto), upto),
    decreases upto,
{
    if upto > 0 {
        moved_nodes_climb(distances, precision, upto - 1);
    }
}

/// The movements that an axis asks for, if it asks for any.
#[verifier::loop_isolation(false)]
pub fn propose_movement(
    axis: usize,
    movable: &Vec<u32>,
    targets: &Vec<Point>,
    distances: &Vec<Scalar>,
    precision: &Scalar,
    surfaces: &Vec<Surface>,
    edges: &Vec<[usize; 2]>,
    nodes: &Vec<u32>,
) -> (r: Option<Proposal>)
    requires
        ascending(movable@),
        targets@.len() == movable@.len(),
        distances@.len() == movable@.len(),
        boundaries_known(surfaces@, edges@.len() as int),
        edges_known(edges@, nodes@.len() as int),
    ensures
        ({
            let moved = moved_nodes(distances@, *precision, movable@.len() as int);
            match r {
                None => moved.len() == 0,
                Some(proposal) => {
                    &&& moved.len() > 0
                    &&& proposal.axis == axis
                    &&& proposal.nodes@ == moved.map_values(|k: int| movable@[k])
                    &&& proposal.targets@ == moved.map_values(|k: int| targets@[k])
                    &&& affected_of(proposal.affected@, surfaces@, edges@, nodes@, proposal.nodes@)
                },
            }
        }),
{
    let mut moving: Vec<u32> = Vec::new();
    let mut places: Vec<Point> = Vec::new();
    assert(moving@ =~= Seq::<int>::empty().map_values(|k: int| movable@[k]));
    assert(places@ =~= Seq::<int>::empty().map_values(|k: int| targets@[k]));
    let mut k: usize = 0;
    while k < movable.len()
        invariant
            k <= movable.len(),
            moving@ == moved_nodes(distances@, *precision, k as int).map_values(|k: int| movable@[k]),
            places@ == moved_nodes(distances@, *precision, k as int).map_values(|k: int| targets@[k]),
        decreases movable.len() - k,
    {
        if precision.less(&distances[k]) {
            moving.push(movable[k]);
            places.push(targets[k]);
            proof {
                let rest = moved_nodes(distances@, *precision, k as int);
                assert(moving@ =~= rest.push(k as int).map_values(|k: int| movable@[k]));
                assert(places@ =~= rest.push(k as int).map_values(|k: int| targets@[k]));
            }
        }
        k += 1;
    }
    proof {
        moved_nodes_climb(distances@, *precision, movable@.len() as int);
    }
    if moving.len() == 0 {
        return None;
    }
    let affected = affected_surfaces(surfaces, edges, nodes, &moving);
    Some(Proposal { axis, nodes: moving, targets: places, affected })
}

pub open spec fn proposal_changes(
    locked: Map<u32, Point>,
    nodes: Seq<u32>,
    targets: Seq<Point>,
) -> Seq<Change> {
    Seq::new(
        nodes.len(),
        |k: int| Change { source_node: nodes[k], before: locked[nodes[k]], after: targets[k] },
    )
}

pub open spec fn group_changes(
    locked: Map<u32, Point>,
    proposals: Seq<Proposal>,
    group: Seq<usize>,
    upto: int,
) -> Seq<Change>
    decreases upto,
{
    if upto <= 0 {
        Seq::empty()
    } else {
        let proposal = proposals[group[upto - 1] as int];
        group_changes(locked, proposals, group, upto - 1) + proposal_changes(
            locked,
            proposal.nodes@,
            proposal.targets@,
        )
    }
}

pub open spec fn with_changes(locked: Map<u32, Point>, changes: Seq<Change>, upto: int) -> Map<u32, Point>
    decreases upto,
{
    if upto <= 0 {
        locked
    } else {
        with_changes(locked, changes, upto - 1).insert(
            changes[upto - 1].source_node,
            changes[upto - 1].after,
        )
    }
}

/// Contours that a surface takes with moved vertices.
#[derive(Debug)]
pub struct Recontoured {
    pub surface: usize,
    pub contours: Vec<Vec<[Scalar; 2]>>,
}

/// The vertices after the first changes. `nodes` are their source nodes.
pub open spec fn moved_vertices(vertices: Seq<Point>, nodes: Seq<u32>, changes: Seq<Change>, upto: int) -> Seq<Point>
    decreases upto,
{
    if upto <= 0 {
        vertices
    } else {
        moved_vertices(vertices, nodes, changes, upto - 1).update(
            nodes.index_of(changes[upto - 1].source_node),
            changes[upto - 1].after,
        )
    }
}

pub open spec fn recontoured(surfaces: Seq<Surface>, fresh: Seq<Recontoured>, upto: int) -> Seq<Surface>
    decreases upto,
{
    if upto <= 0 {
        surfaces
    } else {
        let before = recontoured(surfaces, fresh, upto - 1);
        let s = fresh[upto - 1].surface as int;
        before.update(s, Surface { contours: fresh[upto - 1].contours, ..before[s] })
    }
}

/// The model after changes: only vertices at changed nodes and the contours listed
/// with them are new.
pub open spec fn model_changed(
    before: Model,
    after: Model,
    nodes: Seq<u32>,
    changes: Seq<Change>,
    fresh: Seq<Recontoured>,
) -> bool {
    &&& after.spec_vertices() == moved_vertices(before.spec_vertices(), nodes, changes, changes.len() as int)
    &&& after.spec_surfaces() == recontoured(before.spec_surfaces(), fresh, fresh.len() as int)
    &&& after.spec_edges() == before.spec_edges()
    &&& after.spec_planes() == before.spec_planes()
    &&& after.spec_precision() == before.spec_precision()
    &&& after.spec_minimum_edge() == before.spec_minimum_edge()
}

proof fn moves_keep_count(vertices: Seq<Point>, nodes: Seq<u32>, changes: Seq<Change>, upto: int)
    requires
        upto <= changes.len(),
        nodes.len() == vertices.len(),
        forall|k: int| 0 <= k < changes.len() ==> nodes.contains((#[trigger] changes[k]).source_node),
    ensures
        moved_vertices(vertices, nodes, changes, upto).len() == vertices.len(),
    decreases upto,
{
    if upto > 0 {
        moves_keep_count(vertices, nodes, changes, upto - 1);
        assert(nodes.contains(changes[upto - 1].source_node));
    }
}

proof fn contours_keep_count(surfaces: Seq<Surface>, fresh: Seq<Recontoured>, upto: int)
    requires
        upto <= fresh.len(),
        forall|k: int| 0 <= k < fresh.len() ==> (#[trigger] fresh[k]).surface < surfaces.len(),
    ensures
        recontoured(surfaces, fresh, upto).len() == surfaces.len(),
    decreases upto,
{
    if upto > 0 {
        contours_keep_count(surfaces, fresh, upto - 1);
        assert(fresh[upto - 1].surface < surfaces.len());
    }
}

/// A repair moves no vertex but those at changed nodes.
pub proof fn other_vertices_stay(vertices: Seq<Point>, nodes: Seq<u32>, changes: Seq<Change>, upto: int, v: int)
    requires
        0 <= upto <= changes.len(),
        nodes.len() == vertices.len(),
        0 <= v < vertices.len(),
        forall|k: int|
            0 <= k < changes.len() ==> nodes.contains((#[trigger] changes[k]).source_node) && changes[k].source_node
                != nodes[v],
    ensures
        moved_vertices(vertices, nodes, changes, upto)[v] == vertices[v],
    decreases upto,
{
    if upto > 0 {
        other_vertices_stay(vertices, nodes, changes, upto - 1, v);
        moves_keep_count(vertices, nodes, changes, upto - 1);
        let node = changes[upto - 1].source_node;
        assert(nodes.contains(node));
        assert(nodes[nodes.index_of(node)] == node);
    }
}

/// A repair gives no surface another plane, other boundaries or other elements.
pub proof fn boundaries_stay(surfaces: Seq<Surface>, fresh: Seq<Recontoured>, upto: int, s: int)
    requires
        0 <= upto <= fresh.len(),
        0 <= s < surfaces.len(),
        forall|k: int| 0 <= k < fresh.len() ==> (#[trigger] fresh[k]).surface < surfaces.len(),
    ensures
        recontoured(surfaces, fresh, upto).len() == surfaces.len(),
        recontoured(surfaces, fresh, upto)[s].plane == surfaces[s].plane,
        recontoured(surfaces, fresh, upto)[s].boundaries == surfaces[s].boundaries,
        recontoured(surfaces, fresh, upto)[s].source_elements == surfaces[s].source_elements,
        (forall|k: int| 0 <= k < fresh.len() ==> (#[trigger] fresh[k]).surface != s) ==> recontoured(
            surfaces,
            fresh,
            upto,
        )[s] == surfaces[s],
    decreases upto,
{
    if upto > 0 {
        boundaries_stay(surfaces, fresh, upto - 1, s);
        assert(fresh[upto - 1].surface < surfaces.len());
    }
}

fn apply_changes(model: &mut Model, nodes: &Vec<u32>, changes: &Vec<Change>, fresh: Vec<Recontoured>)
    requires
        old(model).well_formed(),
        ascending(nodes@),
        nodes@.len() == old(model).spec_vertices().len(),
        forall|k: int| 0 <= k < changes@.len() ==> nodes@.contains((#[trigger] changes@[k]).source_node),
        forall|k: int| 0 <= k < fresh@.len() ==> (#[trigger] fresh@[k]).surface < old(model).spec_surfaces().len(),
    ensures
        final(model).well_formed(),
        model_changed(*old(model), *final(model), nodes@, changes@, fresh@),
{
    let ghost before = *model;
    let ghost wanted = fresh@;
    let mut k: usize = 0;
    while k < changes.len()
        invariant
            k <= changes@.len(),
            model.well_formed(),
            ascending(nodes@),
            nodes@.len() == before.spec_vertices().len(),
            forall|m: int| 0 <= m < changes@.len() ==> nodes@.contains((#[trigger] changes@[m]).source_node),
            model.spec_vertices() == moved_vertices(before.spec_vertices(), nodes@, changes@, k as int),
            model.spec_surfaces() == before.spec_surfaces(),
            model.spec_edges() == before.spec_edges(),
            model.spec_planes() == before.spec_planes(),
            model.spec_precision() == before.spec_precision(),
            model.spec_minimum_edge() == before.spec_minimum_edge(),
        decreases changes@.len() - k,
    {
        let node: u32 = changes[k].source_node;
        assert(nodes@.contains(changes@[k as int].source_node));
        match find_id(nodes, node) {
            Some(v) => {
                proof {
                    moves_keep_count(before.spec_vertices(), nodes@, changes@, k as int);
                    let i = nodes@.index_of(node);
                    assert(nodes@[i] == node);
                    if i < v {
                        assert(nodes@[i] < nodes@[v as int]);
                    } else if v < i {
                        assert(nodes@[v as int] < nodes@[i]);
                    }
                }
                model.move_vertex(v, changes[k].after);
            },
            None => {
                assert(false);
            },
        }
        k += 1;
    }
    let ghost moved = *model;
    let mut rest = fresh;
    let mut list: Vec<Recontoured> = Vec::new();
    while rest.len() > 0
        invariant
            rest@ + list@.reverse() =~= wanted,
        decreases rest@.len(),
    {
        match rest.pop() {
            Some(entry) => {
                list.push(entry);
            },
            None => {},
        }
    }
    assert(list@.reverse() =~= wanted);
    while list.len() > 0
        invariant
            list@.len() <= wanted.len(),
            list@ =~= wanted.reverse().take(list@.len() as int),
            model.well_formed(),
            forall|m: int| 0 <= m < wanted.len() ==> (#[trigger] wanted[m]).surface < before.spec_surfaces().len(),
            model.spec_surfaces() == recontoured(before.spec_surfaces(), wanted, wanted.len() - list@.len()),
            model.spec_vertices() == moved.spec_vertices(),
            model.spec_edges() == before.spec_edges(),
            model.spec_planes() == before.spec_planes(),
            model.spec_precision() == before.spec_precision(),
            model.spec_minimum_edge() == before.spec_minimum_edge(),
        decreases list@.len(),
    {
        let ghost done = wanted.len() - list@.len();
        match list.pop() {
            Some(entry) => {
                proof {
                    assert(entry == wanted[done]);
                    contours_keep_count(before.spec_surfaces(), wanted, done);
                }
                let ghost shaped = model.spec_surfaces();
                let s: usize = entry.surface;
                model.reshape_surface(s, entry.contours);
                assert(model.spec_surfaces() =~= shaped.update(
                    s as int,
                    Surface { contours: wanted[done].contours, ..shaped[s as int] },
                ));
            },
            None => {},
        }
    }
}

pub open spec fn repair_reason(valid: bool, clear: bool, consistent: bool) -> Seq<char> {
    if !valid {
        "invalid_neighbor_contour"@
    } else if !clear {
        "new_coplanar_overlap"@
    } else if !consistent {
        "axis_or_incidence_conflict"@
    } else {
        "boundary_anchors_regularized"@
    }
}

pub open spec fn axes_of_group(axes: Seq<usize>, proposals: Seq<Proposal>, group: Seq<usize>) -> bool {
    &&& ascending_indices(axes)
    &&& forall|a: usize| #[trigger]
        axes.contains(a) <==> exists|k: int|
            0 <= k < group.len() && proposals[#[trigger] group[k] as int].axis == a
}

pub open spec fn surfaces_of_group(surfaces: Seq<usize>, proposals: Seq<Proposal>, group: Seq<usize>) -> bool {
    &&& ascending_indices(surfaces)
    &&& forall|s: usize| #[trigger]
        surfaces.contains(s) <==> exists|k: int|
            0 <= k < group.len() && proposals[#[trigger] group[k] as int].affected@.contains(s)
}

/// The axis was repaired in an accepted group.
pub open spec fn repaired(reports: Seq<Repair>, axis: usize) -> bool {
    exists|r: int|
        0 <= r < reports.len() && (#[trigger] reports[r]).accepted && reports[r].source_axes@.contains(axis)
}

/// Planes whose normals cross by no more than this are parallel (1e-10).
pub const PARALLEL_BITS: u64 = 0x3ddb_7cdf_d9d7_bdbb;

/// What is measured of two surfaces before and after movements.
#[derive(Debug)]
pub struct OverlapMeasure {
    pub surfaces: [usize; 2],
    /// Length of the cross product of their normals.
    pub tilt: Scalar,
    /// Distances of the second surface's contours from the plane of the first.
    pub offsets: Vec<Scalar>,
    /// Area of the overlap that was not there before.
    pub growth: Scalar,
    pub tolerance: Scalar,
}

/// Both surfaces lie in one plane.
pub open spec fn share_plane(pair: OverlapMeasure, precision: Scalar) -> bool {
    &&& !(Scalar { bits: PARALLEL_BITS }).lt(pair.tilt)
    &&& forall|k: int| 0 <= k < pair.offsets@.len() ==> !precision.lt(#[trigger] pair.offsets@[k])
}

/// A movement of `changed` makes two coplanar surfaces overlap more than before.
pub open spec fn overlaps_anew(pair: OverlapMeasure, changed: Seq<usize>, precision: Scalar) -> bool {
    &&& changed.contains(pair.surfaces[0]) || changed.contains(pair.surfaces[1])
    &&& share_plane(pair, precision)
    &&& pair.tolerance.lt(pair.growth)
}

/// Whether surfaces that are valid one by one stay apart together.
pub fn no_new_coplanar_overlap(pairs: &Vec<OverlapMeasure>, changed: &Vec<usize>, precision: &Scalar) -> (r: bool)
    ensures
        r == forall|k: int| 0 <= k < pairs@.len() ==> !overlaps_anew(#[trigger] pairs@[k], changed@, *precision),
{
    let parallel = Scalar { bits: PARALLEL_BITS };
    let mut i: usize = 0;
    while i < pairs.len()
        invariant
            i <= pairs@.len(),
            parallel == (Scalar { bits: PARALLEL_BITS }),
            forall|k: int| 0 <= k < i ==> !overlaps_anew(#[trigger] pairs@[k], changed@, *precision),
        decreases pairs@.len() - i,
    {
        let pair = &pairs[i];
        let mut touched = false;
        let mut c: usize = 0;
        while c < changed.len()
            invariant
                c <= changed@.len(),
                touched <==> exists|k: int|
                    0 <= k < c && (#[trigger] changed@[k] == pair.surfaces[0] || changed@[k] == pair.surfaces[1]),
            decreases changed@.len() - c,
        {
            if changed[c] == pair.surfaces[0] || changed[c] == pair.surfaces[1] {
                touched = true;
            }
            c += 1;
        }
        let mut flat = !parallel.less(&pair.tilt);
        let mut o: usize = 0;
        while o < pair.offsets.len()
            invariant
                o <= pair.offsets@.len(),
                flat <==> !parallel.lt(pair.tilt) && forall|k: int|
                    0 <= k < o ==> !precision.lt(#[trigger] pair.offsets@[k]),
            decreases pair.offsets@.len() - o,
        {
            if precision.less(&pair.offsets[o]) {
                flat = false;
            }
            o += 1;
        }
        assert(flat == share_plane(*pair, *precision));
        if touched && flat && pair.tolerance.less(&pair.growth) {
            assert(overlaps_anew(pairs@[i as int], changed@, *precision));
            return false;
        }
        i += 1;
    }
    true
}

/// Repairs under way: the axes that were in order beforehand, the movements
/// asked for, the fixed positions and what became of the groups so far.
#[derive(Debug)]
pub struct Repairs {
    pub baseline: Vec<usize>,
    pub proposals: Vec<Proposal>,
    pub locked: PointTable,
    pub reports: Vec<Repair>,
}

proof fn changed_nodes(
    locked: Map<u32, Point>,
    proposals: Seq<Proposal>,
    group: Seq<usize>,
    upto: int,
    m: int,
    nodes: Seq<u32>,
)
    requires
        0 <= upto <= group.len(),
        forall|k: int| 0 <= k < group.len() ==> #[trigger] group[k] < proposals.len(),
        0 <= m < group_changes(locked, proposals, group, upto).len(),
        forall|i: int, k: int|
            0 <= i < proposals.len() && 0 <= k < proposals[i].nodes@.len() ==> nodes.contains(
                #[trigger] proposals[i].nodes@[k],
            ),
    ensures
        nodes.contains(group_changes(locked, proposals, group, upto)[m].source_node),
    decreases upto,
{
    if upto > 0 {
        let before = group_changes(locked, proposals, group, upto - 1);
        if m < before.len() {
            changed_nodes(locked, proposals, group, upto - 1, m, nodes);
        } else {
            assert(group[upto - 1] < proposals.len());
            let own = proposals[group[upto - 1] as int];
            assert(nodes.contains(proposals[group[upto - 1] as int].nodes@[m - before.len()]));
        }
    }
}

impl Repairs {
    pub open spec fn well_formed(&self) -> bool {
        forall|i: int|
            0 <= i < self.proposals@.len() ==> (#[trigger] self.proposals@[i]).targets@.len()
                == self.proposals@[i].nodes@.len() && forall|k: int|
                0 <= k < self.proposals@[i].nodes@.len() ==> self.locked@.dom().contains(
                    #[trigger] self.proposals@[i].nodes@[k],
                )
    }

    /// Every node that a proposal moves has a vertex.
    pub open spec fn moves_vertices(&self, nodes: Seq<u32>) -> bool {
        forall|i: int, k: int|
            0 <= i < self.proposals@.len() && 0 <= k < self.proposals@[i].nodes@.len() ==> nodes.contains(
                #[trigger] self.proposals@[i].nodes@[k],
            )
    }

    pub open spec fn lists(&self, group: Seq<usize>) -> bool {
        forall|k: int| 0 <= k < group.len() ==> #[trigger] group[k] < self.proposals@.len()
    }

    /// Proposals that affect a common surface are validated and settled together.
    #[verifier::loop_isolation(false)]
    pub fn groups(&self) -> (groups: Vec<Vec<usize>>)
        ensures
            exists|labels: Seq<Vec<u64>>| #[trigger]
                surface_labels(labels, self.proposals@) && components_of(
                    groups@,
                    self.proposals@.len() as int,
                    share_label(labels),
                ),
    {
        let mut labels: Vec<Vec<u64>> = Vec::new();
        let mut i: usize = 0;
        while i < self.proposals.len()
            invariant
                i <= self.proposals.len(),
                labels.len() == i,
                forall|j: int| 0 <= j < i ==> numbers_of(#[trigger] labels@[j]@, self.proposals@[j].affected@),
            decreases self.proposals.len() - i,
        {
            let mut list: Vec<u64> = Vec::new();
            let mut k: usize = 0;
            while k < self.proposals[i].affected.len()
                invariant
                    i < self.proposals.len(),
                    k <= self.proposals@[i as int].affected@.len(),
                    list.len() == k,
                    forall|m: int| 0 <= m < k ==> #[trigger] list@[m] == self.proposals@[i as int].affected@[m],
                decreases self.proposals@[i as int].affected@.len() - k,
            {
                list.push(self.proposals[i].affected[k] as u64);
                k += 1;
            }
            labels.push(list);
            i += 1;
        }
        assert(surface_labels(labels@, self.proposals@));
        linked_groups(&labels)
    }

    #[verifier::loop_isolation(false)]
    pub fn group_axes(&self, group: &Vec<usize>) -> (r: Vec<usize>)
        requires
            self.lists(group@),
        ensures
            axes_of_group(r@, self.proposals@, group@),
    {
        let mut all: Vec<usize> = Vec::new();
        let mut k: usize = 0;
        while k < group.len()
            invariant
                k <= group.len(),
                all.len() == k,
                forall|m: int| 0 <= m < k ==> #[trigger] all@[m] == self.proposals@[group@[m] as int].axis,
            decreases group.len() - k,
        {
            all.push(self.proposals[group[k]].axis);
            k += 1;
        }
        let ghost listed = all@;
        let r = unique_indices(all);
        assert forall|a: usize| #[trigger] r@.contains(a) <==> exists|k: int| 0 <= k < group@.len() && self.proposals@[#[trigger] group@[k] as int].axis == a by {
            assert(r@.contains(a) <==> listed.contains(a));
            if listed.contains(a) {
                let m = choose|m: int| 0 <= m < listed.len() && listed[m] == a;
                assert(self.proposals@[group@[m] as int].axis == a);
            }
            if exists|k: int| 0 <= k < group@.len() && self.proposals@[#[trigger] group@[k] as int].axis == a {
                let m = choose|m: int| 0 <= m < group@.len() && self.proposals@[#[trigger] group@[m] as int].axis == a;
                assert(listed[m] == a);
            }
        }
        r
    }

    /// The surfaces that a group affects, ascending.
    #[verifier::loop_isolation(false)]
    pub fn group_surfaces(&self, group: &Vec<usize>) -> (r: Vec<usize>)
        requires
            self.lists(group@),
        ensures
            surfaces_of_group(r@, self.proposals@, group@),
    {
        let mut all: Vec<usize> = Vec::new();
        let mut k: usize = 0;
        while k < group.len()
            invariant
                k <= group.len(),
                forall|s: usize| #[trigger] all@.contains(s) <==> exists|m: int| 0 <= m < k && self.proposals@[#[trigger] group@[m] as int].affected@.contains(s),
            decreases group.len() - k,
        {
            let ghost start = all@;
            let i: usize = group[k];
            let ghost added = self.proposals@[i as int].affected@;
            let mut m: usize = 0;
            while m < self.proposals[i].affected.len()
                invariant
                    i < self.proposals.len(),
                    m <= added.len(),
                    all@ == start + added.take(m as int),
                decreases added.len() - m,
            {
                all.push(self.proposals[i].affected[m]);
                assert(added.take(m + 1) =~= added.take(m as int).push(added[m as int]));
                assert(all@ =~= start + added.take(m + 1));
                m += 1;
            }
            proof {
                assert(added.take(m as int) =~= added);
                let next = k + 1;
                assert forall|s: usize| #[trigger] all@.contains(s) <==> exists|m: int| 0 <= m < next && self.proposals@[#[trigger] group@[m] as int].affected@.contains(s) by {
                    if all@.contains(s) {
                        let n = choose|n: int| 0 <= n < all@.len() && all@[n] == s;
                        if n < start.len() {
                            assert(start[n] == s);
                            assert(start.contains(s));
                            let m = choose|m: int| 0 <= m < k && self.proposals@[#[trigger] group@[m] as int].affected@.contains(s);
                            assert(self.proposals@[group@[m] as int].affected@.contains(s));
                        } else {
                            assert(added[n - start.len()] == s);
                            assert(self.proposals@[group@[k as int] as int].affected@.contains(s));
                        }
                    }
                    if exists|m: int| 0 <= m < next && self.proposals@[#[trigger] group@[m] as int].affected@.contains(s) {
                        let m = choose|m: int| 0 <= m < next && self.proposals@[#[trigger] group@[m] as int].affected@.contains(s);
                        if m < k {
                            assert(start.contains(s));
                            grown(start, all@, s);
                        } else {
                            let n = choose|n: int| 0 <= n < added.len() && added[n] == s;
                            assert(all@[start.len() + n] == s);
                        }
                    }
                }
            }
            k += 1;
        }
        let ghost listed = all@;
        let r = unique_indices(all);
        assert forall|s: usize| #[trigger] r@.contains(s) <==> exists|k: int| 0 <= k < group@.len() && self.proposals@[#[trigger] group@[k] as int].affected@.contains(s) by {
            assert(r@.contains(s) <==> listed.contains(s));
        }
        r
    }

    /// The axes that must still be in order after a group is settled: those that
    /// were so beforehand, those of the group, and those repaired earlier.
    #[verifier::loop_isolation(false)]
    pub fn required_axes(&self, group: &Vec<usize>) -> (r: Vec<usize>)
        requires
            self.lists(group@),
        ensures
            ascending_indices(r@),
            forall|a: usize| #[trigger]
                r@.contains(a) <==> self.baseline@.contains(a) || repaired(self.reports@, a) || exists|k: int|
                    0 <= k < group@.len() && self.proposals@[#[trigger] group@[k] as int].axis == a,
    {
        let own = self.group_axes(group);
        let mut all: Vec<usize> = Vec::new();
        let mut k: usize = 0;
        while k < self.baseline.len()
            invariant
                k <= self.baseline.len(),
                all@ == self.baseline@.take(k as int),
            decreases self.baseline.len() - k,
        {
            all.push(self.baseline[k]);
            assert(self.baseline@.take(k + 1) =~= self.baseline@.take(k as int).push(self.baseline@[k as int]));
            k += 1;
        }
        assert(self.baseline@.take(k as int) =~= self.baseline@);
        let mut k: usize = 0;
        while k < own.len()
            invariant
                k <= own.len(),
                all@ == self.baseline@ + own@.take(k as int),
            decreases own.len() - k,
        {
            all.push(own[k]);
            assert(own@.take(k + 1) =~= own@.take(k as int).push(own@[k as int]));
            assert(all@ =~= self.baseline@ + own@.take(k + 1));
            k += 1;
        }
        assert(own@.take(k as int) =~= own@);
        proof {
            assert forall|a: usize| #[trigger] all@.contains(a) <==> self.baseline@.contains(a) || own@.contains(a) by {
                if all@.contains(a) {
                    let n = choose|n: int| 0 <= n < all@.len() && all@[n] == a;
                    if n < self.baseline@.len() {
                        assert(self.baseline@[n] == a);
                    } else {
                        assert(own@[n - self.baseline@.len()] == a);
                    }
                }
                if own@.contains(a) {
                    let n = choose|n: int| 0 <= n < own@.len() && own@[n] == a;
                    assert(all@[self.baseline@.len() + n] == a);
                }
                if self.baseline@.contains(a) {
                    grown(self.baseline@, all@, a);
                }
            }
        }
        let mut r: usize = 0;
        while r < self.reports.len()
            invariant
                r <= self.reports.len(),
                forall|a: usize| #[trigger] all@.contains(a) <==> self.baseline@.contains(a) || own@.contains(a) || repaired(self.reports@.take(r as int), a),
            decreases self.reports.len() - r,
        {
            let ghost start = all@;
            let ghost short = self.reports@.take(r as int);
            let ghost long = self.reports@.take(r + 1);
            if self.reports[r].accepted {
                let ghost added = self.reports@[r as int].source_axes@;
                let mut m: usize = 0;
                while m < self.reports[r].source_axes.len()
                    invariant
                        r < self.reports.len(),
                        m <= added.len(),
                        all@ == start + added.take(m as int),
                    decreases added.len() - m,
                {
                    all.push(self.reports[r].source_axes[m]);
                    assert(added.take(m + 1) =~= added.take(m as int).push(added[m as int]));
                    assert(all@ =~= start + added.take(m + 1));
                    m += 1;
                }
                assert(added.take(m as int) =~= added);
            }
            proof {
                let here = self.reports@[r as int];
                assert forall|a: usize| #[trigger] all@.contains(a) <==> self.baseline@.contains(a) || own@.contains(a) || repaired(long, a) by {
                    assert(start.contains(a) <==> self.baseline@.contains(a) || own@.contains(a) || repaired(short, a));
                    assert(repaired(long, a) <==> repaired(short, a) || (here.accepted && here.source_axes@.contains(a))) by {
                        if repaired(short, a) {
                            let q = choose|q: int| 0 <= q < short.len() && (#[trigger] short[q]).accepted && short[q].source_axes@.contains(a);
                            assert(long[q] == short[q]);
                        }
                        if repaired(long, a) {
                            let q = choose|q: int| 0 <= q < long.len() && (#[trigger] long[q]).accepted && long[q].source_axes@.contains(a);
                            if q < r {
                                assert(short[q] == long[q]);
                            }
                        }
                        assert(long[r as int] == here);
                    }
                    if start.contains(a) {
                        grown(start, all@, a);
                    }
                    if here.accepted {
                        if here.source_axes@.contains(a) {
                            let n = choose|n: int| 0 <= n < here.source_axes@.len() && here.source_axes@[n] == a;
                            assert(all@[start.len() + n] == a);
                        }
                        if all@.contains(a) {
                            let n = choose|n: int| 0 <= n < all@.len() && all@[n] == a;
                            if n < start.len() {
                                assert(start[n] == a);
                            } else {
                                assert(here.source_axes@[n - start.len()] == a);
                            }
                        }
                    }
                }
            }
            r += 1;
        }
        assert(self.reports@.take(r as int) =~= self.reports@);
        let ghost listed = all@;
        let result = unique_indices(all);
        assert forall|a: usize| #[trigger] result@.contains(a) <==> self.baseline@.contains(a) || repaired(self.reports@, a) || exists|k: int|
            0 <= k < group@.len() && self.proposals@[#[trigger] group@[k] as int].axis == a by {
            assert(result@.contains(a) <==> listed.contains(a));
            assert(own@.contains(a) <==> exists|k: int| 0 <= k < group@.len() && self.proposals@[#[trigger] group@[k] as int].axis == a);
        }
        result
    }

    /// The movements of a group, from where its nodes are fixed.
    #[verifier::loop_isolation(false)]
    pub fn changes(&self, group: &Vec<usize>) -> (r: Vec<Change>)
        requires
            self.well_formed(),
            self.lists(group@),
        ensures
            r@ == group_changes(self.locked@, self.proposals@, group@, group@.len() as int),
    {
        let mut r: Vec<Change> = Vec::new();
        let mut k: usize = 0;
        while k < group.len()
            invariant
                k <= group.len(),
                r@ == group_changes(self.locked@, self.proposals@, group@, k as int),
            decreases group.len() - k,
        {
            let i: usize = group[k];
            let ghost start = r@;
            let ghost wanted = proposal_changes(self.locked@, self.proposals@[i as int].nodes@, self.proposals@[i as int].targets@);
            assert(start + wanted.take(0) =~= start);
            assert(self.proposals@[i as int].targets@.len() == self.proposals@[i as int].nodes@.len());
            let mut m: usize = 0;
            while m < self.proposals[i].nodes.len()
                invariant
                    i < self.proposals.len(),
                    m <= self.proposals@[i as int].nodes@.len(),
                    r@ == start + wanted.take(m as int),
                decreases self.proposals@[i as int].nodes@.len() - m,
            {
                let node: u32 = self.proposals[i].nodes[m];
                assert(self.locked@.dom().contains(self.proposals@[i as int].nodes@[m as int]));
                match self.locked.get(node) {
                    Some(before) => {
                        let change = Change { source_node: node, before, after: self.proposals[i].targets[m] };
                        r.push(change);
                        assert(wanted.take(m + 1) =~= wanted.take(m as int).push(change));
                        assert(r@ =~= start + wanted.take(m + 1));
                    },
                    None => {
                        assert(false);
                    },
                }
                m += 1;
            }
            assert(wanted.take(m as int) =~= wanted);
            k += 1;
        }
        r
    }

    /// Settles a group: `valid` says that every affected contour stays valid,
    /// `clear` that no new coplanar overlap arises, `consistent` that all
    /// required axes are in order. Only where all hold are the movements taken
    /// over, with the contours that they give to surfaces. `nodes` are the source
    /// nodes of the vertices.
    #[verifier::loop_isolation(false)]
    pub fn settle(
        &mut self,
        model: &mut Model,
        nodes: &Vec<u32>,
        group: &Vec<usize>,
        valid: bool,
        clear: bool,
        consistent: bool,
        fresh: Vec<Recontoured>,
    )
        requires
            old(self).well_formed(),
            old(self).lists(group@),
            old(model).well_formed(),
            ascending(nodes@),
            nodes@.len() == old(model).spec_vertices().len(),
            old(self).moves_vertices(nodes@),
            forall|k: int| 0 <= k < fresh@.len() ==> (#[trigger] fresh@[k]).surface < old(model).spec_surfaces().len(),
        ensures
            final(self).well_formed(),
            final(model).well_formed(),
            final(self).moves_vertices(nodes@),
            final(self).reports@.last().accepted ==> model_changed(
                *old(model),
                *final(model),
                nodes@,
                final(self).reports@.last().changes@,
                fresh@,
            ),
            !final(self).reports@.last().accepted ==> *final(model) == *old(model),
            final(self).proposals == old(self).proposals,
            final(self).baseline == old(self).baseline,
            final(self).reports@.len() == old(self).reports@.len() + 1,
            final(self).reports@.drop_last() == old(self).reports@,
            axes_of_group(final(self).reports@.last().source_axes@, old(self).proposals@, group@),
            surfaces_of_group(final(self).reports@.last().surfaces@, old(self).proposals@, group@),
            final(self).reports@.last().accepted == (valid && clear && consistent),
            final(self).reports@.last().reason@ == repair_reason(valid, clear, consistent),
            ({
                let changes = group_changes(
                    old(self).locked@,
                    old(self).proposals@,
                    group@,
                    group@.len() as int,
                );
                if valid && clear && consistent {
                    final(self).reports@.last().changes@ == changes && final(self).locked@ == with_changes(
                        old(self).locked@,
                        changes,
                        changes.len() as int,
                    )
                } else {
                    final(self).reports@.last().changes@.len() == 0 && final(self).locked@ == old(self).locked@
                }
            }),
    {
        let ghost start = *self;
        let source_axes = self.group_axes(group);
        let surfaces = self.group_surfaces(group);
        let accepted: bool = valid && clear && consistent;
        let reason: String = if !valid {
            "invalid_neighbor_contour".to_string()
        } else if !clear {
            "new_coplanar_overlap".to_string()
        } else if !consistent {
            "axis_or_incidence_conflict".to_string()
        } else {
            "boundary_anchors_regularized".to_string()
        };
        let mut changes: Vec<Change> = Vec::new();
        if accepted {
            changes = self.changes(group);
            let mut k: usize = 0;
            while k < changes.len()
                invariant
                    k <= changes.len(),
                    self.proposals == start.proposals,
                    self.baseline == start.baseline,
                    self.reports == start.reports,
                    self.locked@ == with_changes(start.locked@, changes@, k as int),
                    forall|x: u32| start.locked@.dom().contains(x) ==> #[trigger] self.locked@.dom().contains(x),
                decreases changes.len() - k,
            {
                self.locked.insert(changes[k].source_node, changes[k].after);
                k += 1;
            }
            proof {
                assert forall|m: int| 0 <= m < changes@.len() implies nodes@.contains((#[trigger] changes@[m]).source_node) by {
                    changed_nodes(start.locked@, start.proposals@, group@, group@.len() as int, m, nodes@);
                }
            }
            apply_changes(model, nodes, &changes, fresh);
        }
        self.reports.push(Repair { source_axes, surfaces, accepted, reason, changes });
        assert(self.reports@.drop_last() =~= start.reports@);
        assert forall|i: int, k: int| 0 <= i < self.proposals@.len() && 0 <= k < self.proposals@[i].nodes@.len() implies self.locked@.dom().contains(
                    #[trigger] self.proposals@[i].nodes@[k]) by {
            assert(start.proposals@[i].targets@.len() == start.proposals@[i].nodes@.len());
            assert(start.locked@.dom().contains(start.proposals@[i].nodes@[k]));
        }
    }
}

pub open spec fn surface_labels(labels: Seq<Vec<u64>>, proposals: Seq<Proposal>) -> bool {
    &&& labels.len() == proposals.len()
    &&& forall|i: int|
        0 <= i < proposals.len() ==> numbers_of(#[trigger] labels[i]@, proposals[i].affected@)
}

/// A node that no change concerns keeps its position.
pub proof fn unchanged_nodes_stay(locked: Map<u32, Point>, changes: Seq<Change>, upto: int, node: u32)
    requires
        0 <= upto <= changes.len(),
        forall|k: int| 0 <= k < changes.len() ==> (#[trigger] changes[k]).source_node != node,
    ensures
        with_changes(locked, changes, upto).dom().contains(node) <==> locked.dom().contains(node),
        locked.dom().contains(node) ==> with_changes(locked, changes, upto)[node] == locked[node],
    decreases upto,
{
    if upto > 0 {
        unchanged_nodes_stay(locked, changes, upto - 1, node);
    }
}

/// Over a whole run a vertex moves only where an accepted repair lists its node.
pub proof fn only_listed_vertices_move(stages: Seq<Seq<Point>>, nodes: Seq<u32>, reports: Seq<Repair>, v: int)
    requires
        stages.len() == reports.len() + 1,
        0 <= v < nodes.len(),
        forall|k: int|
            0 <= k <= reports.len() ==> (#[trigger] stages[k]).len() == nodes.len(),
        forall|k: int|
            0 <= k < reports.len() ==> if (#[trigger] reports[k]).accepted {
                stages[k + 1] == moved_vertices(stages[k], nodes, reports[k].changes@, reports[k].changes@.len() as int)
            } else {
                stages[k + 1] == stages[k]
            },
        forall|k: int, m: int|
            0 <= k < reports.len() && reports[k].accepted && 0 <= m < reports[k].changes@.len() ==> nodes.contains(
                (#[trigger] reports[k].changes@[m]).source_node,
            ) && reports[k].changes@[m].source_node != nodes[v],
    ensures
        stages.last()[v] == stages[0][v],
    decreases reports.len(),
{
    if reports.len() > 0 {
        let last = reports.len() - 1;
        let (earlier, before) = (reports.drop_last(), stages.drop_last());
        assert forall|k: int| 0 <= k <= earlier.len() implies (#[trigger] before[k]).len() == nodes.len() by {
            assert(stages[k].len() == nodes.len());
        }
        assert forall|k: int| 0 <= k < earlier.len() implies if (#[trigger] earlier[k]).accepted {
            before[k + 1] == moved_vertices(before[k], nodes, earlier[k].changes@, earlier[k].changes@.len() as int)
        } else {
            before[k + 1] == before[k]
        } by {
            assert(earlier[k] == reports[k]);
        }
        assert forall|k: int, m: int|
            0 <= k < earlier.len() && earlier[k].accepted && 0 <= m < earlier[k].changes@.len() implies nodes.contains(
            (#[trigger] earlier[k].changes@[m]).source_node,
        ) && earlier[k].changes@[m].source_node != nodes[v] by {
            assert(nodes.contains(reports[k].changes@[m].source_node));
        }
        only_listed_vertices_move(before, nodes, earlier, v);
        assert(stages[last].len() == nodes.len());
        if reports[last].accepted {
            let changes = reports[last].changes@;
            assert forall|m: int| 0 <= m < changes.len() implies nodes.contains((#[trigger] changes[m]).source_node) && changes[m].source_node != nodes[v] by {
                assert(nodes.contains(reports[last].changes@[m].source_node));
            }
            other_vertices_stay(stages[last], nodes, changes, changes.len() as int, v);
        }
    }
}

/// A node is asked to move exactly when the relaxed axis puts it farther away than the
/// precision.
pub proof fn far_nodes_are_moved(distances: Seq<Scalar>, precision: Scalar, upto: int, k: int)
    requires
        0 <= upto <= distances.len(),
    ensures
        moved_nodes(distances, precision, upto).contains(k) <==> 0 <= k < upto && precision.lt(distances[k]),
    decreases upto,
{
    if upto > 0 {
        far_nodes_are_moved(distances, precision, upto - 1, k);
        crate::ordering::pushed_contains(moved_nodes(distances, precision, upto - 1), upto - 1, k);
    }
}

/// The changes of a group are those of its proposals: every node from where it was to its
/// target.
pub proof fn groups_change_what_they_propose(
    locked: Map<u32, Point>,
    proposals: Seq<Proposal>,
    group: Seq<usize>,
    upto: int,
    g: int,
    k: int,
)
    requires
        0 <= g < upto <= group.len(),
        0 <= k < proposals[group[g] as int].nodes@.len(),
    ensures
        group_changes(locked, proposals, group, upto).contains(
            (Change {
                source_node: proposals[group[g] as int].nodes@[k],
                before: locked[proposals[group[g] as int].nodes@[k]],
                after: proposals[group[g] as int].targets@[k],
            }),
        ),
    decreases upto,
{
    let proposal = proposals[group[g] as int];
    let wanted = Change { source_node: proposal.nodes@[k], before: locked[proposal.nodes@[k]], after: proposal.targets@[k] };
    let rest = group_changes(locked, proposals, group, upto - 1);
    let all = group_changes(locked, proposals, group, upto);
    if g < upto - 1 {
        groups_change_what_they_propose(locked, proposals, group, upto - 1, g, k);
        let i = choose|i: int| 0 <= i < rest.len() && rest[i] == wanted;
        assert(all[i] == wanted);
    } else {
        assert(proposal_changes(locked, proposal.nodes@, proposal.targets@)[k] == wanted);
        assert(all[rest.len() + k] == wanted);
    }
}

/// After changes a node is where the last change of it put it.
pub proof fn changed_nodes_are_at_their_target(locked: Map<u32, Point>, changes: Seq<Change>, upto: int, k: int)
    requires
        0 <= k < upto <= changes.len(),
        forall|m: int| k < m < upto ==> (#[trigger] changes[m]).source_node != changes[k].source_node,
    ensures
        with_changes(locked, changes, upto).dom().contains(changes[k].source_node),
        with_changes(locked, changes, upto)[changes[k].source_node] == changes[k].after,
    decreases upto,
{
    if k < upto - 1 {
        changed_nodes_are_at_their_target(locked, changes, upto - 1, k);
        assert(changes[upto - 1].source_node != changes[k].source_node);
    }
}

/// A group is taken only where its contours are valid, no new overlap comes of it and the axes
/// stay in order; the reason names the first of these that fails.
pub proof fn repairs_are_named(valid: bool, clear: bool, consistent: bool)
    ensures
        valid && clear && consistent ==> repair_reason(valid, clear, consistent) == "boundary_anchors_regularized"@,
        !valid ==> repair_reason(valid, clear, consistent) == "invalid_neighbor_contour"@,
        valid && !clear ==> repair_reason(valid, clear, consistent) == "new_coplanar_overlap"@,
        valid && clear && !consistent ==> repair_reason(valid, clear, consistent) == "axis_or_incidence_conflict"@,
{
}

/// A vertex that one change concerns is put where it says.
pub proof fn changed_vertices_are_moved(vertices: Seq<Point>, nodes: Seq<u32>, changes: Seq<Change>, upto: int, k: int, v: int)
    requires
        0 <= k < upto <= changes.len(),
        nodes.len() == vertices.len(),
        nodes.no_duplicates(),
        0 <= v < nodes.len(),
        nodes[v] == changes[k].source_node,
        forall|m: int| 0 <= m < changes.len() ==> nodes.contains((#[trigger] changes[m]).source_node),
        forall|m: int| k < m < upto ==> (#[trigger] changes[m]).source_node != changes[k].source_node,
    ensures
        moved_vertices(vertices, nodes, changes, upto).len() == vertices.len(),
        moved_vertices(vertices, nodes, changes, upto)[v] == changes[k].after,
    decreases upto,
{
    moves_keep_count(vertices, nodes, changes, upto - 1);
    let node = changes[upto - 1].source_node;
    assert(nodes.contains(node));
    let at = nodes.index_of(node);
    assert(0 <= at < nodes.len() && nodes[at] == node);
    if k < upto - 1 {
        changed_vertices_are_moved(vertices, nodes, changes, upto - 1, k, v);
        assert(node != changes[k].source_node);
        assert(at != v);
    } else {
        assert(at == v);
    }
}

/// Two surfaces overlap anew exactly when one of them moved, they lie in one plane, and the
/// overlap has grown by more than the tolerance; planes are parallel up to a tilt of one in ten
/// thousand million.
pub proof fn overlaps_are_new_where_they_grow(pair: OverlapMeasure, changed: Seq<usize>, precision: Scalar)
    ensures
        overlaps_anew(pair, changed, precision) <==> {
            &&& changed.contains(pair.surfaces[0]) || changed.contains(pair.surfaces[1])
            &&& !(Scalar { bits: 0x3ddb_7cdf_d9d7_bdbb }).lt(pair.tilt)
            &&& forall|k: int| 0 <= k < pair.offsets@.len() ==> !precision.lt(#[trigger] pair.offsets@[k])
            &&& pair.tolerance.lt(pair.growth)
        },
{
}

/// A node at an end of an axis, or on a ring behind the first of a surface, is not moved.
pub proof fn ends_and_holes_are_protected(
    source: frame::Report,
    surfaces: Seq<Surface>,
    edges: Seq<[usize; 2]>,
    nodes: Seq<u32>,
    a: int,
    s: int,
    r: int,
    k: int,
)
    requires
        0 <= a < source.axes@.len(),
        0 <= s < surfaces.len(),
        1 <= r < surfaces[s].boundaries@.len(),
        0 <= k < surfaces[s].boundaries@[r]@.len(),
    ensures
        protected(source, surfaces, edges, nodes, source.node_ids@[source.axes@[a].endpoints[0] as int]),
        protected(source, surfaces, edges, nodes, source.node_ids@[source.axes@[a].endpoints[1] as int]),
        protected(source, surfaces, edges, nodes, nodes[edges[surfaces[s].boundaries@[r]@[k].edge as int][0] as int]),
        protected(source, surfaces, edges, nodes, nodes[edges[surfaces[s].boundaries@[r]@[k].edge as int][1] as int]),
{
    assert(end_node(source, source.node_ids@[source.axes@[a].endpoints[0] as int]));
    assert(end_node(source, source.node_ids@[source.axes@[a].endpoints[1] as int]));
    let edge = edges[surfaces[s].boundaries@[r]@[k].edge as int];
    assert(edge_meets(edge, nodes, nodes[edge[0] as int]));
    assert(edge_meets(edge, nodes, nodes[edge[1] as int]));
    assert(ring_passes(surfaces[s], r, edges, nodes, nodes[edge[0] as int]));
    assert(ring_passes(surfaces[s], r, edges, nodes, nodes[edge[1] as int]));
}

/// Only a node with a vertex, at a joint of one axis, and neither at an end nor on a hole, may
/// be moved.
pub proof fn only_free_nodes_move(vertices: Seq<u32>, fixed: Seq<u32>, joints: Seq<Joint>, node: u32, j: int)
    requires
        joints_sorted(joints),
        0 <= j < joints.len(),
        joints[j].node == node,
    ensures
        movable(vertices, fixed, joints, node) <==> vertices.contains(node) && !fixed.contains(node) && joints[j].axes@.len() == 1,
{
    if movable(vertices, fixed, joints, node) {
        let i = choose|i: int| 0 <= i < joints.len() && (#[trigger] joints[i]).node == node && joints[i].axes@.len() == 1;
        if i < j {
            assert(joints[i].node < joints[j].node);
        } else if j < i {
            assert(joints[j].node < joints[i].node);
        }
    }
}

/// A surface is affected exactly when a boundary edge of it has an end at a moved node.
pub proof fn surfaces_at_moved_nodes_are_affected(
    affected: Seq<usize>,
    surfaces: Seq<Surface>,
    edges: Seq<[usize; 2]>,
    nodes: Seq<u32>,
    moved: Seq<u32>,
    s: usize,
    r: int,
    k: int,
)
    requires
        affected_of(affected, surfaces, edges, nodes, moved),
        s < surfaces.len(),
        0 <= r < surfaces[s as int].boundaries@.len(),
        0 <= k < surfaces[s as int].boundaries@[r]@.len(),
        moved.contains(nodes[edges[surfaces[s as int].boundaries@[r]@[k].edge as int][0] as int]) || moved.contains(
            nodes[edges[surfaces[s as int].boundaries@[r]@[k].edge as int][1] as int],
        ),
    ensures
        affected.contains(s),
{
    let surface = surfaces[s as int];
    let edge = edges[surface.boundaries@[r]@[k].edge as int];
    let x = if moved.contains(nodes[edge[0] as int]) { nodes[edge[0] as int] } else { nodes[edge[1] as int] };
    assert(edge_meets(edges[surface.boundaries@[r]@[k].edge as int], nodes, x));
    assert(ring_passes(surface, r, edges, nodes, x));
    assert(surface_meets(surface, edges, nodes, moved));
}

/// A group is about the axes of its proposals and about the surfaces that they affect.
pub proof fn groups_are_about_their_proposals(
    axes: Seq<usize>,
    surfaces: Seq<usize>,
    proposals: Seq<Proposal>,
    group: Seq<usize>,
    k: int,
    s: usize,
)
    requires
        axes_of_group(axes, proposals, group),
        surfaces_of_group(surfaces, proposals, group),
        0 <= k < group.len(),
        proposals[group[k] as int].affected@.contains(s),
    ensures
        axes.contains(proposals[group[k] as int].axis),
        surfaces.contains(s),
{
    let a = proposals[group[k] as int].axis;
    assert(proposals[group[k] as int].axis == a);
    assert(axes.contains(a));
    assert(surfaces.contains(s));
}

/// Only an accepted group repairs its axes.
pub proof fn accepted_groups_repair_their_axes(reports: Seq<Repair>, axis: usize, r: int)
    requires
        0 <= r < reports.len(),
        reports[r].source_axes@.contains(axis),
    ensures
        reports[r].accepted ==> repaired(reports, axis),
        repaired(reports, axis) ==> exists|q: int| 0 <= q < reports.len() && (#[trigger] reports[q]).accepted && reports[q].source_axes@.contains(axis),
{
}

/// A repair keeps edges, planes and tolerances, and the vertices at nodes without a change.
pub proof fn repairs_keep_the_rest_of_the_model(
    before: Model,
    after: Model,
    nodes: Seq<u32>,
    changes: Seq<Change>,
    fresh: Seq<Recontoured>,
    v: int,
)
    requires
        model_changed(before, after, nodes, changes, fresh),
        nodes.len() == before.spec_vertices().len(),
        0 <= v < nodes.len(),
        forall|k: int| 0 <= k < changes.len() ==> nodes.contains((#[trigger] changes[k]).source_node),
        forall|k: int| 0 <= k < changes.len() ==> (#[trigger] changes[k]).source_node != nodes[v],
    ensures
        after.spec_vertices()[v] == before.spec_vertices()[v],
        after.spec_edges() == before.spec_edges(),
        after.spec_planes() == before.spec_planes(),
        after.spec_precision() == before.spec_precision(),
        after.spec_minimum_edge() == before.spec_minimum_edge(),
{
    other_vertices_stay(before.spec_vertices(), nodes, changes, changes.len() as int, v);
}

} // verus!
