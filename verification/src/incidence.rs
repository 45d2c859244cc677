//! Which elements meet at a node.
use vstd::prelude::*;
use crate::input::{ElementData, MeshData};
use crate::ordering::{ascending, unique};
use crate::registry::Registry;

verus! {

/// Element `id` has a node in common with the listed elements' node `node`.
pub open spec fn touches(elements: Seq<ElementData>, id: u32, node: u32) -> bool {
    exists|e: int|
        0 <= e < elements.len() && (#[trigger] elements[e]).id == id && elements[e].nodes@.contains(
            node,
        )
}

/// `ids` lists the elements that have `node` among their nodes.
pub open spec fn incident_list(ids: Seq<u32>, elements: Seq<ElementData>, node: u32) -> bool {
    &&& ascending(ids)
    &&& forall|id: u32| #[trigger] ids.contains(id) <==> touches(elements, id, node)
}

/// Incident elements by node.
#[derive(Debug)]
pub struct Incidence {
    slots: Registry,
    lists: Vec<Vec<u32>>,
}

spec fn collected(
    elements: Seq<ElementData>,
    done: int,
    part: int,
    slots: Map<u64, usize>,
    lists: Seq<Vec<u32>>,
) -> bool {
    &&& forall|x: u64| #[trigger] slots.dom().contains(x) ==> slots[x] < lists.len() && x <= u32::MAX
    &&& forall|x: u64, y: u64| #[trigger]
        slots.dom().contains(x) && #[trigger] slots.dom().contains(y) && x != y ==> slots[x]
            != slots[y]
    &&& forall|e: int, k: int|
        0 <= e < elements.len() && 0 <= k < elements[e].nodes@.len() && (e < done || (e == done && k
            < part)) ==> slots.dom().contains(#[trigger] elements[e].nodes@[k] as u64)
            && lists[slots[elements[e].nodes@[k] as u64] as int]@.contains(elements[e].id)
    &&& forall|x: u32, m: int|
        slots.dom().contains(x as u64) && 0 <= m < lists[slots[x as u64] as int]@.len() ==> touches(
            elements,
            #[trigger] lists[slots[x as u64] as int]@[m],
            x,
        )
}

impl Incidence {
    pub closed spec fn describes(&self, elements: Seq<ElementData>) -> bool {
        &&& forall|x: u64| #[trigger]
            self.slots@.dom().contains(x) ==> self.slots@[x] < self.lists@.len()
        &&& forall|x: u32| #[trigger]
            self.slots@.dom().contains(x as u64) ==> incident_list(
                self.lists@[self.slots@[x as u64] as int]@,
                elements,
                x,
            )
        &&& forall|e: int, k: int|
            0 <= e < elements.len() && 0 <= k < elements[e].nodes@.len()
                ==> self.slots@.dom().contains(#[trigger] elements[e].nodes@[k] as u64)
    }

    pub fn of_mesh(mesh: &MeshData) -> (r: Incidence)
        ensures
            r.describes(mesh.elements@),
    {
        let mut slots = Registry::new();
        let mut lists: Vec<Vec<u32>> = Vec::new();
        let ghost elements = mesh.elements@;
        let mut e: usize = 0;
        while e < mesh.elements.len()
            invariant
                e <= mesh.elements.len(),
                elements == mesh.elements@,
                collected(elements, e as int, 0, slots@, lists@),
            decreases mesh.elements.len() - e,
        {
            let mut k: usize = 0;
            while k < mesh.elements[e].nodes.len()
                invariant
                    e < mesh.elements.len(),
                    elements == mesh.elements@,
                    k <= elements[e as int].nodes@.len(),
                    collected(elements, e as int, k as int, slots@, lists@),
                decreases elements[e as int].nodes@.len() - k,
            {
                let node: u32 = mesh.elements[e].nodes[k];
                let id: u32 = mesh.elements[e].id;
                let ghost slots0 = slots@;
                let ghost lists0 = lists@;
                let slot: usize = match slots.get(node as u64) {
                    Some(found) => found,
                    None => {
                        let fresh: usize = lists.len();
                        slots.insert(node as u64, fresh);
                        lists.push(Vec::new());
                        fresh
                    },
                };
                let ghost lists1 = lists@;
                lists[slot].push(id);
                proof {
                    assert(lists@[slot as int]@ == lists1[slot as int]@.push(id));
                    assert(elements[e as int].id == id && elements[e as int].nodes@.contains(node));
                    assert(touches(elements, id, node));
                    assert forall|f: int, l: int|
                        0 <= f < elements.len() && 0 <= l < elements[f].nodes@.len() && (f < e || (f
                            == e && l < k + 1)) implies slots@.dom().contains(
                        #[trigger] elements[f].nodes@[l] as u64,
                    ) && lists@[slots@[elements[f].nodes@[l] as u64] as int]@.contains(
                        elements[f].id,
                    ) by {
                        let x = elements[f].nodes@[l] as u64;
                        if f < e || l < k {
                            assert(slots0.dom().contains(x));
                            let s = slots0[x] as int;
                            assert(lists0[s]@.contains(elements[f].id));
                            let m = choose|m: int| 0 <= m < lists0[s]@.len() && lists0[s]@[m] == elements[f].id;
                            assert(lists@[s]@[m] == elements[f].id);
                        } else {
                            assert(lists@[slot as int]@.last() == id);
                        }
                    }
                    assert forall|x: u32, m: int|
                        slots@.dom().contains(x as u64) && 0 <= m
                            < lists@[slots@[x as u64] as int]@.len() implies touches(
                        elements,
                        #[trigger] lists@[slots@[x as u64] as int]@[m],
                        x,
                    ) by {
                        let s = slots@[x as u64] as int;
                        if s != slot || m < lists1[s]@.len() {
                            if slots0.dom().contains(x as u64) {
                                assert(lists@[s]@[m] == lists0[slots0[x as u64] as int]@[m]);
                            } else {
                                assert(x == node);
                            }
                        } else {
                            assert(x as u64 == node as u64);
                        }
                    }
                }
                k += 1;
            }
            proof {
                assert forall|f: int, l: int|
                    0 <= f < elements.len() && 0 <= l < elements[f].nodes@.len() && (f < e + 1 || (f
                        == e + 1 && l < 0)) implies slots@.dom().contains(
                    #[trigger] elements[f].nodes@[l] as u64,
                ) && lists@[slots@[elements[f].nodes@[l] as u64] as int]@.contains(elements[f].id) by {
                    assert(f < e || (f == e && l < k));
                }
            }
            e += 1;
        }
        let mut sorted: Vec<Vec<u32>> = Vec::new();
        let mut i: usize = 0;
        while i < lists.len()
            invariant
                i <= lists.len(),
                sorted.len() == i,
                forall|s: int|
                    0 <= s < i ==> crate::ordering::lists_distinct(
                        (#[trigger] sorted@[s])@,
                        lists@[s]@,
                    ),
            decreases lists.len() - i,
        {
            let values = crate::ordering::copy_ids(&lists[i]);
            sorted.push(unique(values));
            i += 1;
        }
        let r = Incidence { slots, lists: sorted };
        proof {
            assert forall|x: u32| #[trigger] r.slots@.dom().contains(x as u64) implies incident_list(
                r.lists@[r.slots@[x as u64] as int]@,
                elements,
                x,
            ) by {
                let s = slots@[x as u64] as int;
                assert(crate::ordering::lists_distinct(sorted@[s]@, lists@[s]@));
                assert forall|id: u32| #[trigger] sorted@[s]@.contains(id) <==> touches(elements, id, x) by {
                    if sorted@[s]@.contains(id) {
                        assert(lists@[s]@.contains(id));
                        let m = choose|m: int| 0 <= m < lists@[s]@.len() && lists@[s]@[m] == id;
                        assert(touches(elements, lists@[slots@[x as u64] as int]@[m], x));
                    }
                    if touches(elements, id, x) {
                        let f = choose|f: int|
                            0 <= f < elements.len() && (#[trigger] elements[f]).id == id && elements[f].nodes@.contains(x);
                        let l = choose|l: int| 0 <= l < elements[f].nodes@.len() && elements[f].nodes@[l] == x;
                        assert(lists@[slots@[elements[f].nodes@[l] as u64] as int]@.contains(elements[f].id));
                    }
                }
            }
        }
        r
    }

    /// The elements at a node, ascending.
    pub fn of(&self, node: u32) -> (r: Vec<u32>)
        ensures
            forall|elements: Seq<ElementData>| #[trigger]
                self.describes(elements) ==> incident_list(r@, elements, node),
    {
        match self.slots.get(node as u64) {
            Some(slot) => {
                if slot < self.lists.len() {
                    crate::ordering::copy_ids(&self.lists[slot])
                } else {
                    Vec::new()
                }
            },
            None => {
                proof {
                    assert forall|elements: Seq<ElementData>, id: u32|
                        self.describes(elements) implies !#[trigger] touches(elements, id, node) by {
                        if touches(elements, id, node) {
                            let f = choose|f: int|
                                0 <= f < elements.len() && (#[trigger] elements[f]).id == id && elements[f].nodes@.contains(node);
                            let l = choose|l: int| 0 <= l < elements[f].nodes@.len() && elements[f].nodes@[l] == node;
                            assert(self.slots@.dom().contains(elements[f].nodes@[l] as u64));
                        }
                    }
                }
                Vec::new()
            },
        }
    }
}

} // verus!
