//! Lines along which slabs are split.
use vstd::prelude::*;
use crate::edges::{distinct_edges, edges_ascend, key, key_of, Edge};
use crate::geometry::utils::{name_of, NodeNames};
use crate::input::ElementData;
use crate::ordering::{ascending, find_id};

verus! {

/// The names of the two ends of a side, the last side leading back to the start.
pub open spec fn side_between(nodes: Seq<u32>, names: Map<u32, u32>, i: int) -> (u32, u32) {
    let next = if i + 1 < nodes.len() {
        i + 1
    } else {
        0
    };
    (name_of(names, nodes[i]), name_of(names, nodes[next]))
}

pub open spec fn node_edge(side: (u32, u32)) -> Edge {
    key_of(side.0 as usize, side.1 as usize)
}

/// Both ends of a side lie at the level of the slab.
pub open spec fn at_level(level: Seq<u32>, side: (u32, u32)) -> bool {
    level.contains(side.0) && level.contains(side.1)
}

/// An element of three nodes or more that stands upright cuts along its sides at
/// the level, one of two nodes along itself.
pub open spec fn cuts_along(
    element: ElementData,
    upright: bool,
    names: Map<u32, u32>,
    level: Seq<u32>,
    by_walls: bool,
    by_beams: bool,
    i: int,
) -> bool {
    &&& 0 <= i < element.nodes@.len()
    &&& at_level(level, side_between(element.nodes@, names, i))
    &&& (by_walls && element.nodes@.len() >= 3 && upright) || (by_beams && element.nodes@.len() == 2)
}

pub open spec fn cutting(
    elements: Seq<ElementData>,
    upright: Seq<bool>,
    names: Map<u32, u32>,
    level: Seq<u32>,
    by_walls: bool,
    by_beams: bool,
    edge: Edge,
) -> bool {
    exists|e: int, i: int|
        0 <= e < elements.len() && #[trigger] cuts_along(
            elements[e],
            upright[e],
            names,
            level,
            by_walls,
            by_beams,
            i,
        ) && edge == node_edge(side_between(elements[e].nodes@, names, i))
}

/// The edges of walls and beams at the level of a slab. `upright` says which
/// elements stand vertically; `level` lists the nodes within the tolerance of the
/// level, ascending.
#[verifier::loop_isolation(false)]
pub fn extract_cutting_edge_nodes_for_slab(
    elements: &Vec<ElementData>,
    upright: &Vec<bool>,
    names: &NodeNames,
    level: &Vec<u32>,
    split_by_walls: bool,
    split_by_beams: bool,
) -> (r: Vec<Edge>)
    requires
        upright@.len() == elements@.len(),
        ascending(level@),
    ensures
        edges_ascend(r@),
        forall|edge: Edge| #[trigger]
            r@.contains(edge) <==> cutting(
                elements@,
                upright@,
                names@,
                level@,
                split_by_walls,
                split_by_beams,
                edge,
            ),
{
    let mut all: Vec<Edge> = Vec::new();
    let mut e: usize = 0;
    while e < elements.len()
        invariant
            e <= elements@.len(),
            forall|k: int| 0 <= k < all@.len() ==> cutting(elements@, upright@, names@, level@, split_by_walls, split_by_beams, #[trigger] all@[k]),
            forall|d: int, i: int|
                0 <= d < e && #[trigger] cuts_along(elements@[d], upright@[d], names@, level@, split_by_walls, split_by_beams, i) ==> all@.contains(node_edge(side_between(elements@[d].nodes@, names@, i))),
        decreases elements@.len() - e,
    {
        let nodes = &elements[e].nodes;
        let cuts: bool = (split_by_walls && nodes.len() >= 3 && upright[e]) || (split_by_beams && nodes.len() == 2);
        let ghost start = all@;
        let mut i: usize = 0;
        while i < nodes.len() && cuts
            invariant
                i <= nodes@.len(),
                !cuts ==> all@ == start,
                forall|k: int| 0 <= k < all@.len() ==> cutting(elements@, upright@, names@, level@, split_by_walls, split_by_beams, #[trigger] all@[k]),
                forall|edge: Edge| start.contains(edge) ==> #[trigger] all@.contains(edge),
                forall|j: int|
                    0 <= j < i && #[trigger] cuts_along(elements@[e as int], upright@[e as int], names@, level@, split_by_walls, split_by_beams, j) ==> all@.contains(node_edge(side_between(nodes@, names@, j))),
            decreases nodes@.len() - i,
        {
            let next: usize = if i + 1 < nodes.len() {
                i + 1
            } else {
                0
            };
            let a: u32 = names.canonical(nodes[i]);
            let b: u32 = names.canonical(nodes[next]);
            let ghost before = all@;
            if find_id(level, a).is_some() && find_id(level, b).is_some() {
                let edge: Edge = key(a as usize, b as usize);
                all.push(edge);
                proof {
                    assert(all@[before.len() as int] == edge);
                    assert(level@.contains(a) && level@.contains(b));
                    assert(cuts_along(elements@[e as int], upright@[e as int], names@, level@, split_by_walls, split_by_beams, i as int));
                    assert(cutting(elements@, upright@, names@, level@, split_by_walls, split_by_beams, edge));
                }
            }
            proof {
                assert forall|edge: Edge| before.contains(edge) implies #[trigger] all@.contains(edge) by {
                    let k = choose|k: int| 0 <= k < before.len() && before[k] == edge;
                    assert(all@[k] == edge);
                }
                assert forall|k: int| 0 <= k < all@.len() implies cutting(elements@, upright@, names@, level@, split_by_walls, split_by_beams, #[trigger] all@[k]) by {
                    if k < before.len() {
                        assert(all@[k] == before[k]);
                    }
                }
            }
            i += 1;
        }
        assert forall|d: int, j: int|
            0 <= d < e + 1 && #[trigger] cuts_along(elements@[d], upright@[d], names@, level@, split_by_walls, split_by_beams, j) implies all@.contains(node_edge(side_between(elements@[d].nodes@, names@, j))) by {
            if d < e {
                assert(start.contains(node_edge(side_between(elements@[d].nodes@, names@, j))));
            }
        }
        e += 1;
    }
    let r = distinct_edges(&all);
    assert forall|edge: Edge| #[trigger] r@.contains(edge) <==> cutting(elements@, upright@, names@, level@, split_by_walls, split_by_beams, edge) by {
        if r@.contains(edge) {
            assert(all@.contains(edge));
            let k = choose|k: int| 0 <= k < all@.len() && all@[k] == edge;
            assert(cutting(elements@, upright@, names@, level@, split_by_walls, split_by_beams, all@[k]));
        }
        if cutting(elements@, upright@, names@, level@, split_by_walls, split_by_beams, edge) {
            let (d, j) = choose|d: int, j: int|
                0 <= d < elements@.len() && #[trigger] cuts_along(elements@[d], upright@[d], names@, level@, split_by_walls, split_by_beams, j) && edge == node_edge(side_between(elements@[d].nodes@, names@, j));
            assert(all@.contains(edge));
        }
    }
    r
}

/// A slab is split along walls only where that is wanted, along beams only where that is
/// wanted, and always between two nodes at its level.
pub proof fn slabs_are_split_as_wanted(
    element: ElementData,
    upright: bool,
    names: Map<u32, u32>,
    level: Seq<u32>,
    by_walls: bool,
    by_beams: bool,
    i: int,
)
    ensures
        cuts_along(element, upright, names, level, by_walls, by_beams, i) ==> 0 <= i < element.nodes@.len() && level.contains(
            name_of(names, element.nodes@[i]),
        ) && level.contains(name_of(names, element.nodes@[if i + 1 < element.nodes@.len() { i + 1 } else { 0 }])),
        !by_walls && element.nodes@.len() != 2 ==> !cuts_along(element, upright, names, level, by_walls, by_beams, i),
        !by_beams && element.nodes@.len() == 2 ==> !cuts_along(element, upright, names, level, by_walls, by_beams, i),
        !upright && element.nodes@.len() != 2 ==> !cuts_along(element, upright, names, level, by_walls, by_beams, i),
        0 <= i < element.nodes@.len() && level.contains(name_of(names, element.nodes@[i])) && level.contains(
            name_of(names, element.nodes@[if i + 1 < element.nodes@.len() { i + 1 } else { 0 }]),
        ) && ((by_walls && upright && element.nodes@.len() >= 3) || (by_beams && element.nodes@.len() == 2)) ==> cuts_along(
            element,
            upright,
            names,
            level,
            by_walls,
            by_beams,
            i,
        ),
{
}

/// An edge of a slab does not depend on the direction in which a side is gone along, and it
/// tells which nodes it joins.
pub proof fn node_edges_have_no_direction(a: u32, b: u32, c: u32, d: u32)
    ensures
        node_edge((a, b)) == node_edge((b, a)),
        node_edge((a, b)) == node_edge((c, d)) ==> (a == c && b == d) || (a == d && b == c),
{
    assert(node_edge((a, b)) =~= node_edge((b, a)));
    if node_edge((a, b)) == node_edge((c, d)) {
        assert(node_edge((a, b))[0] == node_edge((c, d))[0]);
        assert(node_edge((a, b))[1] == node_edge((c, d))[1]);
    }
}

} // verus!
