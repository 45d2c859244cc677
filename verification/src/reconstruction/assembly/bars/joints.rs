//! What meets at the anchor nodes of the axes, and which of the nodes are fixed
//! before any axis is considered.
use vstd::prelude::*;
use crate::incidence::{incident_list, touches, Incidence};
use crate::input::{MeshData, Point};
use crate::ordering::{ascending, ascending_indices, copy_indices, lists_index, unique, unique_indices};
use crate::reconstruction::assembly::holes::find_owner;
use crate::reconstruction::assembly::supports::{boundary_owners, nodes_known, occurrences, owners_of, surfaces_at, NodeSurfaces};
use crate::reconstruction::frame;
use crate::reconstruction::Surface;
use crate::registry::{Lists, Registry};

verus! {

/// One of the first anchors of the axis is at the node.
pub open spec fn anchored_before(axis: frame::Axis, ids: Seq<u32>, node: u32, upto: int) -> bool {
    exists|k: int|
        0 <= k < upto && (#[trigger] axis.anchors@[k]).node < ids.len()
            && ids[axis.anchors@[k].node as int] == node
}

pub open spec fn axis_has_node(axis: frame::Axis, ids: Seq<u32>, node: u32) -> bool {
    anchored_before(axis, ids, node, axis.anchors@.len() as int)
}

pub open spec fn anchors_known(axes: Seq<frame::Axis>, count: int) -> bool {
    forall|a: int, k: int|
        0 <= a < axes.len() && 0 <= k < axes[a].anchors@.len() ==> (#[trigger] axes[a].anchors@[k]).node
            < count
}

pub open spec fn some_axis_has(axes: Seq<frame::Axis>, ids: Seq<u32>, node: u32) -> bool {
    exists|a: int| 0 <= a < axes.len() && axis_has_node(#[trigger] axes[a], ids, node)
}

/// The surface was built from the element; the last such one counts.
pub open spec fn built_from(surfaces: Seq<Surface>, id: u32, s: int) -> bool {
    &&& 0 <= s < surfaces.len()
    &&& surfaces[s].source_elements@.contains(id)
    &&& forall|t: int|
        s < t < surfaces.len() ==> !(#[trigger] surfaces[t]).source_elements@.contains(id)
}

pub open spec fn is_built(surfaces: Seq<Surface>, id: u32) -> bool {
    exists|s: int|
        0 <= s < surfaces.len() && (#[trigger] surfaces[s]).source_elements@.contains(id)
}

/// The element is a recognized shell of the frame.
pub open spec fn source_shell(surfaces: Seq<frame::Surface>, id: u32) -> bool {
    exists|s: int|
        0 <= s < surfaces.len() && (#[trigger] surfaces[s]).source_elements@.contains(id)
}

/// A recognized shell with the node was built into the surface.
pub open spec fn owned_by(
    mesh: MeshData,
    source: Seq<frame::Surface>,
    built: Seq<Surface>,
    node: u32,
    s: usize,
) -> bool {
    exists|id: u32| #[trigger]
        touches(mesh.elements@, id, node) && source_shell(source, id) && built_from(built, id, s as int)
}

/// A recognized shell with the node was not built.
pub open spec fn left_unbuilt(
    mesh: MeshData,
    source: Seq<frame::Surface>,
    built: Seq<Surface>,
    node: u32,
) -> bool {
    exists|id: u32| #[trigger]
        touches(mesh.elements@, id, node) && source_shell(source, id) && !is_built(built, id)
}

/// What meets at an anchor node.
#[derive(Debug)]
pub struct Joint {
    pub node: u32,
    /// Axes with an anchor here.
    pub axes: Vec<usize>,
    /// Supports of the surfaces through the node, one for each occurrence.
    pub planes: Vec<usize>,
    /// Built surfaces of the shells that have the node.
    pub surfaces: Vec<usize>,
    /// Whether a shell that has the node was not built.
    pub unbuilt: bool,
}

pub open spec fn joint_axes(list: Seq<usize>, axes: Seq<frame::Axis>, ids: Seq<u32>, node: u32) -> bool {
    &&& ascending_indices(list)
    &&& forall|a: usize| #[trigger]
        list.contains(a) <==> a < axes.len() && axis_has_node(axes[a as int], ids, node)
}

pub open spec fn joint_planes(list: Seq<usize>, owners: Seq<usize>, representatives: Seq<usize>) -> bool {
    &&& list.len() == owners.len()
    &&& forall|k: int| 0 <= k < list.len() ==> #[trigger] list[k] == representatives[owners[k] as int]
}

pub open spec fn joint_of(
    joint: Joint,
    mesh: MeshData,
    source: frame::Report,
    built: Seq<Surface>,
    representatives: Seq<usize>,
) -> bool {
    let ids = source.node_ids@;
    &&& joint_axes(joint.axes@, source.axes@, ids, joint.node)
    &&& joint_planes(
        joint.planes@,
        surfaces_at(source.surfaces@, ids, joint.node, source.surfaces@.len() as int),
        representatives,
    )
    &&& ascending_indices(joint.surfaces@)
    &&& forall|s: usize| #[trigger]
        joint.surfaces@.contains(s) <==> owned_by(mesh, source.surfaces@, built, joint.node, s)
    &&& joint.unbuilt == left_unbuilt(mesh, source.surfaces@, built, joint.node)
}

pub open spec fn joints_of(
    joints: Seq<Joint>,
    mesh: MeshData,
    source: frame::Report,
    built: Seq<Surface>,
    representatives: Seq<usize>,
) -> bool {
    &&& forall|j: int|
        0 <= j < joints.len() ==> joint_of(#[trigger] joints[j], mesh, source, built, representatives)
            && some_axis_has(source.axes@, source.node_ids@, joints[j].node)
    &&& joints_sorted(joints)
    &&& forall|node: u32| #[trigger]
        some_axis_has(source.axes@, source.node_ids@, node) ==> exists|j: int|
            0 <= j < joints.len() && (#[trigger] joints[j]).node == node
}

pub open spec fn joints_sorted(joints: Seq<Joint>) -> bool {
    forall|i: int, j: int|
        0 <= i < j < joints.len() ==> (#[trigger] joints[i]).node < (#[trigger] joints[j]).node
}

proof fn occurrences_value(nodes: Seq<usize>, ids: Seq<u32>, node: u32, upto: int, surface: usize, k: int)
    requires
        0 <= k < occurrences(nodes, ids, node, upto, surface).len(),
    ensures
        occurrences(nodes, ids, node, upto, surface)[k] == surface,
    decreases upto,
{
    if upto > 0 {
        let rest = occurrences(nodes, ids, node, upto - 1, surface);
        if k < rest.len() {
            occurrences_value(nodes, ids, node, upto - 1, surface, k);
        }
    }
}

proof fn surfaces_at_bounded(surfaces: Seq<frame::Surface>, ids: Seq<u32>, node: u32, upto: int, k: int)
    requires
        0 <= upto <= surfaces.len() <= usize::MAX,
        0 <= k < surfaces_at(surfaces, ids, node, upto).len(),
    ensures
        surfaces_at(surfaces, ids, node, upto)[k] < upto,
    decreases upto,
{
    if upto > 0 {
        let rest = surfaces_at(surfaces, ids, node, upto - 1);
        if k < rest.len() {
            surfaces_at_bounded(surfaces, ids, node, upto - 1, k);
        } else {
            occurrences_value(
                surfaces[upto - 1].nodes@,
                ids,
                node,
                surfaces[upto - 1].nodes@.len() as int,
                (upto - 1) as usize,
                k - rest.len(),
            );
        }
    }
}

/// Lists the axes at each node, with repetitions.
#[verifier::loop_isolation(false)]
fn axis_lists(axes: &Vec<frame::Axis>, ids: &Vec<u32>) -> (r: (Lists, Vec<u32>))
    requires
        anchors_known(axes@, ids@.len() as int),
    ensures
        r.0.well_formed(),
        forall|node: u32, a: usize| #[trigger]
            r.0.at(node as u64).contains(a) <==> a < axes@.len() && axis_has_node(axes@[a as int], ids@, node),
        ascending(r.1@),
        forall|node: u32| #[trigger] r.1@.contains(node) <==> some_axis_has(axes@, ids@, node),
{
    let mut lists = Lists::new();
    let mut all: Vec<u32> = Vec::new();
    let mut a: usize = 0;
    while a < axes.len()
        invariant
            a <= axes.len(),
            lists.well_formed(),
            forall|node: u32, b: usize| #[trigger]
                lists.at(node as u64).contains(b) <==> b < a && axis_has_node(axes@[b as int], ids@, node),
            forall|node: u32| #[trigger] all@.contains(node) <==> exists|b: int| 0 <= b < a && axis_has_node(#[trigger] axes@[b], ids@, node),
        decreases axes.len() - a,
    {
        let ghost earlier = all@;
        let mut k: usize = 0;
        while k < axes[a].anchors.len()
            invariant
                a < axes.len(),
                k <= axes@[a as int].anchors@.len(),
                lists.well_formed(),
                forall|node: u32, b: usize| #[trigger]
                    lists.at(node as u64).contains(b) <==> (b < a && axis_has_node(axes@[b as int], ids@, node)) || (b == a && anchored_before(axes@[a as int], ids@, node, k as int)),
                forall|node: u32| #[trigger] all@.contains(node) <==> earlier.contains(node) || anchored_before(axes@[a as int], ids@, node, k as int),
            decreases axes@[a as int].anchors@.len() - k,
        {
            let ghost before = lists;
            let ghost old_all = all@;
            assert(axes@[a as int].anchors@[k as int].node < ids@.len());
            let node: u32 = ids[axes[a].anchors[k].node];
            lists.push(node as u64, a);
            all.push(node);
            proof {
                let axis = axes@[a as int];
                let next = k + 1;
                assert forall|x: u32| #[trigger] anchored_before(axis, ids@, x, next) <==> anchored_before(axis, ids@, x, k as int) || x == node by {
                    if anchored_before(axis, ids@, x, k as int) {
                        let m = choose|m: int| 0 <= m < k && (#[trigger] axis.anchors@[m]).node < ids@.len() && ids@[axis.anchors@[m].node as int] == x;
                        assert(axis.anchors@[m].node < ids@.len());
                    }
                    if x == node {
                        assert(axis.anchors@[k as int].node < ids@.len());
                    }
                }
                assert forall|x: u32, b: usize| #[trigger]
                    lists.at(x as u64).contains(b) <==> (b < a && axis_has_node(axes@[b as int], ids@, x)) || (b == a && anchored_before(axis, ids@, x, next)) by {
                    assert(before.at(x as u64).contains(b) <==> (b < a && axis_has_node(axes@[b as int], ids@, x)) || (b == a && anchored_before(axis, ids@, x, k as int)));
                    if x as u64 == node as u64 {
                        let old_list = before.at(x as u64);
                        let new_list = lists.at(x as u64);
                        if old_list.contains(b) {
                            let m = choose|m: int| 0 <= m < old_list.len() && old_list[m] == b;
                            assert(new_list[m] == b);
                        }
                        if b == a {
                            assert(new_list[old_list.len() as int] == a);
                        }
                        if new_list.contains(b) && b != a {
                            let m = choose|m: int| 0 <= m < new_list.len() && new_list[m] == b;
                            assert(old_list[m] == b);
                        }
                    }
                }
                assert forall|x: u32| #[trigger] all@.contains(x) <==> earlier.contains(x) || anchored_before(axis, ids@, x, next) by {
                    assert(old_all.contains(x) <==> earlier.contains(x) || anchored_before(axis, ids@, x, k as int));
                    if old_all.contains(x) {
                        let m = choose|m: int| 0 <= m < old_all.len() && old_all[m] == x;
                        assert(all@[m] == x);
                    }
                    if x == node {
                        assert(all@[old_all.len() as int] == x);
                    }
                    if all@.contains(x) && x != node {
                        let m = choose|m: int| 0 <= m < all@.len() && all@[m] == x;
                        assert(old_all[m] == x);
                    }
                }
            }
            k += 1;
        }
        proof {
            let next = a + 1;
            assert forall|node: u32| #[trigger] all@.contains(node) <==> exists|b: int| 0 <= b < next && axis_has_node(#[trigger] axes@[b], ids@, node) by {
                if all@.contains(node) {
                    if earlier.contains(node) {
                        let b = choose|b: int| 0 <= b < a && axis_has_node(#[trigger] axes@[b], ids@, node);
                        assert(axis_has_node(axes@[b], ids@, node));
                    } else {
                        assert(axis_has_node(axes@[a as int], ids@, node));
                    }
                }
                if exists|b: int| 0 <= b < next && axis_has_node(#[trigger] axes@[b], ids@, node) {
                    let b = choose|b: int| 0 <= b < next && axis_has_node(#[trigger] axes@[b], ids@, node);
                    if b < a {
                        assert(earlier.contains(node));
                    }
                }
            }
        }
        a += 1;
    }
    let ghost listed = all@;
    let nodes = unique(all);
    assert forall|node: u32| #[trigger] nodes@.contains(node) <==> some_axis_has(axes@, ids@, node) by {
        assert(nodes@.contains(node) <==> listed.contains(node));
    }
    (lists, nodes)
}

pub open spec fn finds_built(index: Map<u64, usize>, surfaces: Seq<Surface>) -> bool {
    &&& forall|id: u32| #[trigger]
        index.dom().contains(id as u64) ==> built_from(surfaces, id, index[id as u64] as int)
    &&& forall|id: u32| #[trigger] is_built(surfaces, id) ==> index.dom().contains(id as u64)
}

/// Finds the surface that was built from an element.
#[verifier::loop_isolation(false)]
fn built_index(surfaces: &Vec<Surface>) -> (index: Registry)
    ensures
        finds_built(index@, surfaces@),
{
    let mut index = Registry::new();
    let mut s: usize = 0;
    while s < surfaces.len()
        invariant
            s <= surfaces.len(),
            forall|id: u32| #[trigger]
                index@.dom().contains(id as u64) ==> built_from(surfaces@.take(s as int), id, index@[id as u64] as int),
            forall|t: int, id: u32| 0 <= t < s && (#[trigger] surfaces@[t]).source_elements@.contains(id) ==> #[trigger] index@.dom().contains(id as u64),
        decreases surfaces.len() - s,
    {
        let ghost start = index@;
        let ghost here = surfaces@[s as int].source_elements@;
        let mut k: usize = 0;
        while k < surfaces[s].source_elements.len()
            invariant
                s < surfaces.len(),
                k <= here.len(),
                forall|id: u32| start.dom().contains(id as u64) ==> #[trigger] index@.dom().contains(id as u64),
                forall|m: int| 0 <= m < k ==> index@.dom().contains(#[trigger] here[m] as u64),
                forall|id: u32| #[trigger] index@.dom().contains(id as u64) ==> if exists|m: int| 0 <= m < k && here[m] == id {
                    index@[id as u64] == s
                } else {
                    start.dom().contains(id as u64) && index@[id as u64] == start[id as u64]
                },
            decreases here.len() - k,
        {
            let ghost before = index@;
            index.insert(surfaces[s].source_elements[k] as u64, s);
            proof {
                let next = k + 1;
                assert forall|id: u32| #[trigger] index@.dom().contains(id as u64) implies if exists|m: int| 0 <= m < next && here[m] == id {
                    index@[id as u64] == s
                } else {
                    start.dom().contains(id as u64) && index@[id as u64] == start[id as u64]
                } by {
                    if id == here[k as int] {
                    } else {
                        assert(before.dom().contains(id as u64));
                        if exists|m: int| 0 <= m < next && here[m] == id {
                            let m = choose|m: int| 0 <= m < next && here[m] == id;
                            assert(0 <= m < k);
                        }
                    }
                }
            }
            k += 1;
        }
        proof {
            let short = surfaces@.take(s as int);
            let long = surfaces@.take(s + 1);
            assert forall|id: u32| #[trigger] index@.dom().contains(id as u64) implies built_from(long, id, index@[id as u64] as int) by {
                if here.contains(id) {
                    let m = choose|m: int| 0 <= m < here.len() && here[m] == id;
                    assert(0 <= m < k && here[m] == id);
                    assert(index@[id as u64] == s);
                } else {
                    if exists|m: int| 0 <= m < k && here[m] == id {
                        let m = choose|m: int| 0 <= m < k && here[m] == id;
                        assert(here.contains(id));
                    }
                    let t = start[id as u64] as int;
                    assert(built_from(short, id, t));
                    assert(long[t] == short[t]);
                    assert forall|u: int| t < u < long.len() implies !(#[trigger] long[u]).source_elements@.contains(id) by {
                        if u < s {
                            assert(short[u] == long[u]);
                        }
                    }
                }
            }
            let next = s + 1;
            assert forall|t: int, id: u32| 0 <= t < next && (#[trigger] surfaces@[t]).source_elements@.contains(id) implies #[trigger] index@.dom().contains(id as u64) by {
                if t == s {
                    let m = choose|m: int| 0 <= m < here.len() && here[m] == id;
                    assert(index@.dom().contains(here[m] as u64));
                } else {
                    assert(start.dom().contains(id as u64));
                }
            }
        }
        s += 1;
    }
    assert(surfaces@.take(surfaces.len() as int) =~= surfaces@);
    assert forall|id: u32| #[trigger] is_built(surfaces@, id) implies index@.dom().contains(id as u64) by {
        let t = choose|t: int| 0 <= t < surfaces@.len() && (#[trigger] surfaces@[t]).source_elements@.contains(id);
        assert(surfaces@[t].source_elements@.contains(id));
    }
    index
}

/// Knows the elements of the frame's surfaces.
#[verifier::loop_isolation(false)]
fn shell_index(surfaces: &Vec<frame::Surface>) -> (index: Registry)
    ensures
        forall|id: u32| #[trigger] index@.dom().contains(id as u64) <==> source_shell(surfaces@, id),
{
    let mut index = Registry::new();
    let mut s: usize = 0;
    while s < surfaces.len()
        invariant
            s <= surfaces.len(),
            forall|id: u32| #[trigger] index@.dom().contains(id as u64) ==> source_shell(surfaces@, id),
            forall|t: int, id: u32| 0 <= t < s && (#[trigger] surfaces@[t]).source_elements@.contains(id) ==> #[trigger] index@.dom().contains(id as u64),
        decreases surfaces.len() - s,
    {
        let ghost here = surfaces@[s as int].source_elements@;
        let mut k: usize = 0;
        while k < surfaces[s].source_elements.len()
            invariant
                s < surfaces.len(),
                k <= here.len(),
                forall|id: u32| #[trigger] index@.dom().contains(id as u64) ==> source_shell(surfaces@, id),
                forall|t: int, id: u32| 0 <= t < s && (#[trigger] surfaces@[t]).source_elements@.contains(id) ==> #[trigger] index@.dom().contains(id as u64),
                forall|m: int| 0 <= m < k ==> index@.dom().contains(#[trigger] here[m] as u64),
            decreases here.len() - k,
        {
            let ghost before = index@;
            index.insert(surfaces[s].source_elements[k] as u64, s);
            proof {
                assert(here.contains(here[k as int]));
                assert(surfaces@[s as int].source_elements@.contains(here[k as int]));
                assert forall|id: u32| #[trigger] index@.dom().contains(id as u64) implies source_shell(surfaces@, id) by {
                    if id != here[k as int] {
                        assert(before.dom().contains(id as u64));
                    }
                }
                assert forall|t: int, id: u32| 0 <= t < s && (#[trigger] surfaces@[t]).source_elements@.contains(id) implies #[trigger] index@.dom().contains(id as u64) by {
                    assert(before.dom().contains(id as u64));
                }
            }
            k += 1;
        }
        s += 1;
    }
    assert forall|id: u32| #[trigger] index@.dom().contains(id as u64) <==> source_shell(surfaces@, id) by {
        if source_shell(surfaces@, id) {
            let t = choose|t: int| 0 <= t < surfaces@.len() && (#[trigger] surfaces@[t]).source_elements@.contains(id);
            assert(surfaces@[t].source_elements@.contains(id));
        }
    }
    index
}

#[verifier::loop_isolation(false)]
fn node_surfaces(
    mesh: &MeshData,
    incidence: &Incidence,
    shells: &Registry,
    index: &Registry,
    source: &Vec<frame::Surface>,
    built: &Vec<Surface>,
    node: u32,
) -> (r: (Vec<usize>, bool))
    requires
        incidence.describes(mesh.elements@),
        forall|id: u32| #[trigger] shells@.dom().contains(id as u64) <==> source_shell(source@, id),
        finds_built(index@, built@),
    ensures
        ascending_indices(r.0@),
        forall|s: usize| #[trigger] r.0@.contains(s) <==> owned_by(*mesh, source@, built@, node, s),
        r.1 == left_unbuilt(*mesh, source@, built@, node),
{
    let around = incidence.of(node);
    assert(incident_list(around@, mesh.elements@, node));
    let mut all: Vec<usize> = Vec::new();
    let mut unbuilt: bool = false;
    let mut k: usize = 0;
    while k < around.len()
        invariant
            k <= around.len(),
            forall|m: int| 0 <= m < all@.len() ==> owned_by(*mesh, source@, built@, node, #[trigger] all@[m]),
            forall|m: int, s: usize| 0 <= m < k && source_shell(source@, #[trigger] around@[m]) && built_from(built@, around@[m], s as int) ==> #[trigger] all@.contains(s),
            unbuilt ==> left_unbuilt(*mesh, source@, built@, node),
            !unbuilt ==> forall|m: int| 0 <= m < k && source_shell(source@, #[trigger] around@[m]) ==> is_built(built@, around@[m]),
        decreases around.len() - k,
    {
        let id: u32 = around[k];
        let ghost before = all@;
        assert(around@.contains(id));
        assert(touches(mesh.elements@, id, node));
        if shells.contains(id as u64) {
            match index.get(id as u64) {
                Some(s) => {
                    all.push(s);
                    assert(built_from(built@, id, s as int));
                    assert(owned_by(*mesh, source@, built@, node, s));
                    assert(all@[all.len() - 1] == s);
                    assert(built@[s as int].source_elements@.contains(id));
                    assert(is_built(built@, id));
                },
                None => {
                    unbuilt = true;
                    assert(left_unbuilt(*mesh, source@, built@, node));
                },
            }
        }
        proof {
            assert forall|x: usize| before.contains(x) implies #[trigger] all@.contains(x) by {
                let m = choose|m: int| 0 <= m < before.len() && before[m] == x;
                assert(all@[m] == x);
            }
            assert forall|m: int, s: usize| 0 <= m < k + 1 && source_shell(source@, #[trigger] around@[m]) && built_from(built@, around@[m], s as int) implies #[trigger] all@.contains(s) by {
                if m < k {
                    assert(before.contains(s));
                } else {
                    assert(built@[s as int].source_elements@.contains(id));
                    assert(is_built(built@, id));
                    let t = index@[id as u64];
                    assert(built_from(built@, id, t as int));
                    if (s as int) < t {
                        assert(!built@[t as int].source_elements@.contains(id));
                    }
                    if t < (s as int) {
                        assert(!built@[s as int].source_elements@.contains(id));
                    }
                    assert(t == s);
                    assert(all@.contains(t));
                }
            }
        }
        k += 1;
    }
    let ghost listed = all@;
    let surfaces = unique_indices(all);
    proof {
        assert forall|s: usize| #[trigger] surfaces@.contains(s) <==> owned_by(*mesh, source@, built@, node, s) by {
            assert(surfaces@.contains(s) <==> listed.contains(s));
            if listed.contains(s) {
                let m = choose|m: int| 0 <= m < listed.len() && listed[m] == s;
                assert(owned_by(*mesh, source@, built@, node, listed[m]));
            }
            if owned_by(*mesh, source@, built@, node, s) {
                let id = choose|id: u32| #[trigger] touches(mesh.elements@, id, node) && source_shell(source@, id) && built_from(built@, id, s as int);
                assert(around@.contains(id));
                let m = choose|m: int| 0 <= m < around@.len() && around@[m] == id;
                assert(source_shell(source@, around@[m]));
            }
        }
        if left_unbuilt(*mesh, source@, built@, node) {
            let id = choose|id: u32| #[trigger] touches(mesh.elements@, id, node) && source_shell(source@, id) && !is_built(built@, id);
            assert(around@.contains(id));
            let m = choose|m: int| 0 <= m < around@.len() && around@[m] == id;
            assert(source_shell(source@, around@[m]));
        }
    }
    (surfaces, unbuilt)
}

#[verifier::loop_isolation(false)]
fn node_planes(owners: &Vec<NodeSurfaces>, representatives: &Vec<usize>, source: &frame::Report, nodes: &Vec<u32>, node: u32) -> (r:
    Vec<usize>)
    requires
        owners_of(owners@, source.surfaces@, source.node_ids@, nodes@),
        representatives@.len() == source.surfaces@.len(),
        nodes@.contains(node),
    ensures
        joint_planes(
            r@,
            surfaces_at(source.surfaces@, source.node_ids@, node, source.surfaces@.len() as int),
            representatives@,
        ),
{
    let ghost wanted = surfaces_at(source.surfaces@, source.node_ids@, node, source.surfaces@.len() as int);
    let mut planes: Vec<usize> = Vec::new();
    assert(source.surfaces.len() <= usize::MAX);
    match find_owner(owners, node) {
        Some(m) => {
            assert(owners@[m as int].surfaces@ == wanted);
            let mut k: usize = 0;
            while k < owners[m].surfaces.len()
                invariant
                    k <= wanted.len(),
                    planes.len() == k,
                    forall|l: int| 0 <= l < k ==> #[trigger] planes@[l] == representatives@[wanted[l] as int],
                decreases wanted.len() - k,
            {
                proof {
                    surfaces_at_bounded(source.surfaces@, source.node_ids@, node, source.surfaces@.len() as int, k as int);
                }
                planes.push(representatives[owners[m].surfaces[k]]);
                k += 1;
            }
        },
        None => {
            proof {
                let b = choose|b: int| 0 <= b < nodes@.len() && nodes@[b] == node;
                assert(surfaces_at(source.surfaces@, source.node_ids@, nodes@[b], source.surfaces@.len() as int).len() == 0);
            }
        },
    }
    planes
}

/// The joints of the axes, ascending by node.
#[verifier::loop_isolation(false)]
pub fn joints(
    mesh: &MeshData,
    source: &frame::Report,
    built: &Vec<Surface>,
    representatives: &Vec<usize>,
) -> (r: Vec<Joint>)
    requires
        anchors_known(source.axes@, source.node_ids@.len() as int),
        nodes_known(source.surfaces@, source.node_ids@.len() as int),
        representatives@.len() == source.surfaces@.len(),
    ensures
        joints_of(r@, *mesh, *source, built@, representatives@),
{
    let (lists, nodes) = axis_lists(&source.axes, &source.node_ids);
    let owners = match boundary_owners(&source.surfaces, &source.node_ids, &nodes) {
        Ok(owners) => owners,
        Err(_) => Vec::new(),
    };
    let incidence = Incidence::of_mesh(mesh);
    let shells = shell_index(&source.surfaces);
    let index = built_index(built);
    let mut r: Vec<Joint> = Vec::new();
    let mut i: usize = 0;
    while i < nodes.len()
        invariant
            i <= nodes.len(),
            r.len() == i,
            forall|j: int| 0 <= j < i ==> (#[trigger] r@[j]).node == nodes@[j],
            forall|j: int| 0 <= j < i ==> joint_of(#[trigger] r@[j], *mesh, *source, built@, representatives@),
        decreases nodes.len() - i,
    {
        let node: u32 = nodes[i];
        assert(nodes@.contains(node));
        let listed = lists.get(node as u64);
        let ghost around = listed@;
        let axes = unique_indices(crate::ordering::copy_indices(listed));
        assert forall|a: usize| #[trigger] axes@.contains(a) <==> a < source.axes@.len() && axis_has_node(source.axes@[a as int], source.node_ids@, node) by {
            assert(axes@.contains(a) <==> around.contains(a));
            assert(lists.at(node as u64).contains(a) <==> a < source.axes@.len() && axis_has_node(source.axes@[a as int], source.node_ids@, node));
        }
        let planes = node_planes(&owners, representatives, source, &nodes, node);
        let (surfaces, unbuilt) = node_surfaces(mesh, &incidence, &shells, &index, &source.surfaces, built, node);
        r.push(Joint { node, axes, planes, surfaces, unbuilt });
        i += 1;
    }
    proof {
        assert forall|j: int| 0 <= j < r@.len() implies some_axis_has(source.axes@, source.node_ids@, (#[trigger] r@[j]).node) by {
            assert(nodes@.contains(nodes@[j]));
        }
        assert forall|node: u32| #[trigger] some_axis_has(source.axes@, source.node_ids@, node) implies exists|j: int| 0 <= j < r@.len() && (#[trigger] r@[j]).node == node by {
            assert(nodes@.contains(node));
            let j = choose|j: int| 0 <= j < nodes@.len() && nodes@[j] == node;
            assert(r@[j].node == node);
        }
    }
    r
}

/// Why no axis can be anchored at a joint.
#[derive(Debug, Clone, Copy, PartialEq, Eq, Structural)]
pub enum Unavailable {
    UnbuiltSurfaceRegion,
    IncompatibleSurfaceSupports,
}

pub open spec fn unavailable_reason(reason: Unavailable) -> Seq<char> {
    match reason {
        Unavailable::UnbuiltSurfaceRegion => "unbuilt_surface_region"@,
        Unavailable::IncompatibleSurfaceSupports => "incompatible_surface_supports"@,
    }
}

pub fn unavailable_text(reason: Unavailable) -> (r: String)
    ensures
        r@ == unavailable_reason(reason),
{
    match reason {
        Unavailable::UnbuiltSurfaceRegion => "unbuilt_surface_region".to_string(),
        Unavailable::IncompatibleSurfaceSupports => "incompatible_surface_supports".to_string(),
    }
}

#[derive(Debug, Clone, Copy)]
pub struct JointState {
    /// Where the joint is fixed, if it is.
    pub lock: Option<Point>,
    pub unavailable: Option<Unavailable>,
}

/// A joint at a vertex of the surfaces stays there. One of several axes is fixed where
/// its supports meet, or at its candidate without supports. `met` is where the supports
/// meet, if they do.
pub open spec fn state_of(joint: Joint, vertex: Option<Point>, met: Option<Point>, candidate: Point) -> JointState {
    let unbuilt = if joint.unbuilt {
        Some(Unavailable::UnbuiltSurfaceRegion)
    } else {
        None
    };
    if vertex is Some {
        JointState { lock: vertex, unavailable: unbuilt }
    } else if joint.planes@.len() > 0 && met is None {
        JointState { lock: None, unavailable: Some(Unavailable::IncompatibleSurfaceSupports) }
    } else if joint.axes@.len() <= 1 {
        JointState { lock: None, unavailable: unbuilt }
    } else if joint.planes@.len() > 0 {
        JointState { lock: met, unavailable: unbuilt }
    } else {
        JointState { lock: Some(candidate), unavailable: unbuilt }
    }
}

pub fn joint_state(joint: &Joint, vertex: Option<Point>, met: Option<Point>, candidate: Point) -> (r: JointState)
    ensures
        r == state_of(*joint, vertex, met, candidate),
{
    let unbuilt: Option<Unavailable> = if joint.unbuilt {
        Some(Unavailable::UnbuiltSurfaceRegion)
    } else {
        None
    };
    if vertex.is_some() {
        JointState { lock: vertex, unavailable: unbuilt }
    } else if joint.planes.len() > 0 && met.is_none() {
        JointState { lock: None, unavailable: Some(Unavailable::IncompatibleSurfaceSupports) }
    } else if joint.axes.len() <= 1 {
        JointState { lock: None, unavailable: unbuilt }
    } else if joint.planes.len() > 0 {
        JointState { lock: met, unavailable: unbuilt }
    } else {
        JointState { lock: Some(candidate), unavailable: unbuilt }
    }
}

pub fn find_joint(joints: &Vec<Joint>, node: u32) -> (r: Option<usize>)
    requires
        joints_sorted(joints@),
    ensures
        match r {
            Some(j) => j < joints@.len() && joints@[j as int].node == node,
            None => forall|j: int| 0 <= j < joints@.len() ==> (#[trigger] joints@[j]).node != node,
        },
{
    let mut low: usize = 0;
    let mut high: usize = joints.len();
    while low < high
        invariant
            joints_sorted(joints@),
            low <= high <= joints.len(),
            forall|j: int| 0 <= j < low ==> (#[trigger] joints@[j]).node < node,
            forall|j: int| high <= j < joints@.len() ==> (#[trigger] joints@[j]).node > node,
        decreases high - low,
    {
        let middle: usize = low + (high - low) / 2;
        if joints[middle].node == node {
            return Some(middle);
        }
        if joints[middle].node < node {
            low = middle + 1;
        } else {
            high = middle;
        }
    }
    None
}

/// A support that goes through the joint at every node.
pub open spec fn common_plane(joints: Seq<Joint>, nodes: Seq<u32>, plane: usize) -> bool {
    &&& nodes.len() > 0
    &&& forall|k: int| 0 <= k < nodes.len() ==> plane_at(joints, #[trigger] nodes[k], plane)
}

pub open spec fn plane_at(joints: Seq<Joint>, node: u32, plane: usize) -> bool {
    exists|j: int| 0 <= j < joints.len() && (#[trigger] joints[j]).node == node && joints[j].planes@.contains(plane)
}

fn is_plane_at(joints: &Vec<Joint>, node: u32, plane: usize) -> (r: bool)
    requires
        joints_sorted(joints@),
    ensures
        r == plane_at(joints@, node, plane),
{
    match find_joint(joints, node) {
        Some(j) => lists_index(&joints[j].planes, plane),
        None => false,
    }
}

/// The supports that go through the joints at all of the nodes, ascending.
pub fn common_planes(joints: &Vec<Joint>, nodes: &Vec<u32>) -> (r: Vec<usize>)
    requires
        joints_sorted(joints@),
    ensures
        ascending_indices(r@),
        forall|plane: usize| #[trigger] r@.contains(plane) <==> common_plane(joints@, nodes@, plane),
{
    let mut kept: Vec<usize> = Vec::new();
    if nodes.len() == 0 {
        return kept;
    }
    let first = find_joint(joints, nodes[0]);
    if first.is_none() {
        assert forall|plane: usize| !common_plane(joints@, nodes@, plane) by {
            assert(!plane_at(joints@, nodes@[0], plane));
        }
        return kept;
    }
    let j: usize = first.unwrap();
    let candidates = unique_indices(copy_indices(&joints[j].planes));
    let mut i: usize = 0;
    while i < candidates.len()
        invariant
            i <= candidates@.len(),
            joints_sorted(joints@),
            ascending_indices(candidates@),
            ascending_indices(kept@),
            forall|m: int, n: int|
                0 <= m < kept@.len() && i <= n < candidates@.len() ==> #[trigger] kept@[m] < #[trigger] candidates@[n],
            forall|plane: usize| #[trigger]
                kept@.contains(plane) <==> candidates@.take(i as int).contains(plane) && forall|k: int|
                    0 <= k < nodes@.len() ==> plane_at(joints@, #[trigger] nodes@[k], plane),
        decreases candidates@.len() - i,
    {
        let plane = candidates[i];
        let mut k: usize = 0;
        let mut all = true;
        while k < nodes.len()
            invariant
                k <= nodes@.len(),
                joints_sorted(joints@),
                all == forall|m: int| 0 <= m < k ==> plane_at(joints@, #[trigger] nodes@[m], plane),
            decreases nodes@.len() - k,
        {
            if !is_plane_at(joints, nodes[k], plane) {
                all = false;
            }
            k += 1;
        }
        let ghost before = kept@;
        if all {
            kept.push(plane);
        }
        assert(candidates@.take(i + 1) =~= candidates@.take(i as int).push(plane));
        assert forall|other: usize| #[trigger] kept@.contains(other) <==> candidates@.take(i + 1).contains(other)
            && forall|m: int| 0 <= m < nodes@.len() ==> plane_at(joints@, #[trigger] nodes@[m], other) by {
            let t = candidates@.take(i as int);
            assert(t.push(plane).contains(other) <==> t.contains(other) || other == plane) by {
                if t.contains(other) {
                    let m = t.index_of(other);
                    assert(t.push(plane)[m] == other);
                }
                assert(t.push(plane)[t.len() as int] == plane);
            }
            assert(before.contains(other) <==> t.contains(other) && forall|m: int|
                0 <= m < nodes@.len() ==> plane_at(joints@, #[trigger] nodes@[m], other));
            if all {
                assert(before.push(plane).contains(other) <==> before.contains(other) || other == plane) by {
                    if before.contains(other) {
                        let m = before.index_of(other);
                        assert(before.push(plane)[m] == other);
                    }
                    assert(before.push(plane)[before.len() as int] == plane);
                }
            }
        }
        i += 1;
    }
    assert(candidates@.take(i as int) =~= candidates@);
    assert forall|plane: usize| #[trigger] kept@.contains(plane) <==> common_plane(joints@, nodes@, plane) by {
        if common_plane(joints@, nodes@, plane) {
            assert(plane_at(joints@, nodes@[0], plane));
            assert(joints@[j as int].planes@.contains(plane));
        }
    }
    kept
}

/// A joint at a vertex stays there. Without a vertex it is free where one axis comes, and where
/// several come it is fixed where the supports meet, or at its candidate without supports.
pub proof fn joints_are_fixed_where_they_must(joint: Joint, vertex: Option<Point>, met: Option<Point>, candidate: Point)
    ensures
        ({
            let state = state_of(joint, vertex, met, candidate);
            &&& vertex is Some ==> state.lock == vertex
            &&& vertex is None && joint.axes@.len() <= 1 ==> state.lock is None
            &&& vertex is None && joint.axes@.len() >= 2 && joint.planes@.len() == 0 ==> state.lock == Some(candidate)
            &&& vertex is None && joint.axes@.len() >= 2 && joint.planes@.len() > 0 ==> state.lock == met
            &&& state.unavailable is None <==> !joint.unbuilt && (vertex is Some || joint.planes@.len() == 0 || met is Some)
            &&& state.unavailable == Some(Unavailable::IncompatibleSurfaceSupports) <==> vertex is None && joint.planes@.len() > 0
                && met is None
            &&& vertex is Some && joint.unbuilt ==> state.unavailable == Some(Unavailable::UnbuiltSurfaceRegion)
        }),
{
}

/// A joint has an axis exactly when the axis has an anchor at its node, a surface exactly when a
/// shell with the node was built into it, and the supports of all surfaces through the node.
pub proof fn joints_hold_what_meets_there(
    joint: Joint,
    mesh: MeshData,
    source: frame::Report,
    built: Seq<Surface>,
    representatives: Seq<usize>,
    a: usize,
    k: int,
    s: int,
)
    requires
        joint_of(joint, mesh, source, built, representatives),
        a < source.axes@.len(),
        0 <= k < source.axes@[a as int].anchors@.len(),
        source.axes@[a as int].anchors@[k].node < source.node_ids@.len(),
        source.node_ids@[source.axes@[a as int].anchors@[k].node as int] == joint.node,
        0 <= s < surfaces_at(source.surfaces@, source.node_ids@, joint.node, source.surfaces@.len() as int).len(),
    ensures
        joint.axes@.contains(a),
        joint.planes@.contains(
            representatives[surfaces_at(source.surfaces@, source.node_ids@, joint.node, source.surfaces@.len() as int)[s] as int],
        ),
{
    let axis = source.axes@[a as int];
    assert(axis.anchors@[k].node < source.node_ids@.len());
    assert(axis_has_node(axis, source.node_ids@, joint.node));
    assert(joint.axes@.contains(a));
    let at = surfaces_at(source.surfaces@, source.node_ids@, joint.node, source.surfaces@.len() as int);
    assert(joint.planes@[s] == representatives[at[s] as int]);
}

/// The reasons against a joint are told apart.
pub proof fn joint_reasons_are_named(reason: Unavailable)
    ensures
        reason == Unavailable::UnbuiltSurfaceRegion ==> unavailable_reason(reason) == "unbuilt_surface_region"@,
        reason == Unavailable::IncompatibleSurfaceSupports ==> unavailable_reason(reason) == "incompatible_surface_supports"@,
{
}

/// Every node with an anchor has a joint, and only such nodes have one.
pub proof fn anchored_nodes_have_a_joint(
    joints: Seq<Joint>,
    mesh: MeshData,
    source: frame::Report,
    built: Seq<Surface>,
    representatives: Seq<usize>,
    a: usize,
    k: int,
)
    requires
        joints_of(joints, mesh, source, built, representatives),
        a < source.axes@.len(),
        0 <= k < source.axes@[a as int].anchors@.len(),
        source.axes@[a as int].anchors@[k].node < source.node_ids@.len(),
    ensures
        exists|j: int|
            0 <= j < joints.len() && (#[trigger] joints[j]).node == source.node_ids@[source.axes@[a as int].anchors@[k].node as int]
                && joints[j].axes@.contains(a),
{
    let axis = source.axes@[a as int];
    let ids = source.node_ids@;
    let node = ids[axis.anchors@[k].node as int];
    assert(anchored_before(axis, ids, node, axis.anchors@.len() as int));
    assert(axis_has_node(source.axes@[a as int], ids, node));
    assert(some_axis_has(source.axes@, ids, node));
    let j = choose|j: int| 0 <= j < joints.len() && (#[trigger] joints[j]).node == node;
    assert(joint_of(joints[j], mesh, source, built, representatives));
    assert(joints[j].axes@.contains(a));
}

/// A support is common only where the joint at each of the nodes has it.
pub proof fn common_supports_go_through_all(joints: Seq<Joint>, nodes: Seq<u32>, plane: usize, k: int, j: int)
    requires
        joints_sorted(joints),
        0 <= k < nodes.len(),
        0 <= j < joints.len(),
        joints[j].node == nodes[k],
    ensures
        common_plane(joints, nodes, plane) ==> joints[j].planes@.contains(plane),
        nodes.len() == 1 ==> (common_plane(joints, nodes, plane) <==> joints[j].planes@.contains(plane)),
{
    if common_plane(joints, nodes, plane) {
        assert(plane_at(joints, nodes[k], plane));
        let i = choose|i: int| 0 <= i < joints.len() && (#[trigger] joints[i]).node == nodes[k] && joints[i].planes@.contains(plane);
        if i < j {
            assert(joints[i].node < joints[j].node);
        } else if j < i {
            assert(joints[j].node < joints[i].node);
        }
    }
    if joints[j].planes@.contains(plane) {
        assert(plane_at(joints, nodes[k], plane));
    }
}

} // verus!
