//! Source finite-element data.
use vstd::prelude::*;
use crate::scalar::Scalar;
use crate::table::HashTable;

verus! {

/// A point in space by its coordinates.
pub type Point = [Scalar; 3];

/// Coordinates by node number.
#[derive(Debug)]
pub struct NodeMap {
    slots: HashTable,
    points: Vec<Point>,
}

impl View for NodeMap {
    type V = Map<u32, Point>;

    closed spec fn view(&self) -> Map<u32, Point> {
        Map::new(
            |id: u32| self.slots@.dom().contains(id as u64),
            |id: u32| self.points@[self.slots@[id as u64] as int],
        )
    }
}

impl NodeMap {
    /// Every number has a point of its own.
    #[verifier::type_invariant]
    spec fn well_formed(self) -> bool {
        &&& forall|x: u64| #[trigger]
            self.slots@.dom().contains(x) ==> x <= u32::MAX && self.slots@[x] < self.points@.len()
        &&& forall|x: u64, y: u64| #[trigger]
            self.slots@.dom().contains(x) && #[trigger] self.slots@.dom().contains(y) && x != y
                ==> self.slots@[x] != self.slots@[y]
    }

    pub fn new() -> (r: NodeMap)
        ensures
            r@ == Map::<u32, Point>::empty(),
    {
        let r = NodeMap { slots: HashTable::new(), points: Vec::new() };
        assert(r@ =~= Map::<u32, Point>::empty());
        r
    }

    /// Sets the point of a node.
    pub fn insert(&mut self, id: u32, point: Point)
        ensures
            final(self)@ == old(self)@.insert(id, point),
    {
        proof {
            use_type_invariant(&*self);
        }
        let mut whole = NodeMap::new();
        std::mem::swap(self, &mut whole);
        let NodeMap { mut slots, mut points } = whole;
        let ghost known = slots@;
        match slots.get(id as u64) {
            Some(slot) => {
                points.set(slot, point);
                assert(known.dom().contains(id as u64));
                assert forall|other: u32| known.dom().contains(other as u64) && other != id implies points@[#[trigger] known[other as u64] as int] == old(self).points@[known[other as u64] as int] by {
                    assert(other as u64 != id as u64);
                }
            },
            None => {
                let slot: usize = points.len();
                points.push(point);
                slots.insert(id as u64, slot);
            },
        }
        *self = NodeMap { slots, points };
        assert(self@ =~= old(self)@.insert(id, point));
    }

    pub fn get(&self, id: u32) -> (r: Option<Point>)
        ensures
            match r {
                Some(point) => self@.dom().contains(id) && self@[id] == point,
                None => !self@.dom().contains(id),
            },
    {
        proof {
            use_type_invariant(self);
        }
        match self.slots.get(id as u64) {
            Some(slot) => Some(self.points[slot]),
            None => None,
        }
    }

    pub fn contains_key(&self, id: u32) -> (r: bool)
        ensures
            r == self@.dom().contains(id),
    {
        match self.get(id) {
            Some(_) => true,
            None => false,
        }
    }

    /// The node numbers in ascending order.
    pub fn ids(&self) -> (r: Vec<u32>)
        ensures
            crate::ordering::ascending(r@),
            forall|id: u32| r@.contains(id) <==> self@.dom().contains(id),
    {
        proof {
            use_type_invariant(self);
        }
        let keys = self.slots.keys();
        assert forall|m: int| 0 <= m < keys@.len() implies #[trigger] keys@[m] <= u32::MAX by {
            assert(keys@.contains(keys@[m]));
        }
        let mut ids: Vec<u32> = Vec::new();
        let mut k: usize = 0;
        while k < keys.len()
            invariant
                k <= keys@.len(),
                ids@.len() == k,
                forall|m: int| 0 <= m < keys@.len() ==> #[trigger] keys@[m] <= u32::MAX,
                forall|m: int| 0 <= m < k ==> #[trigger] ids@[m] == keys@[m],
            decreases keys@.len() - k,
        {
            ids.push(keys[k] as u32);
            k += 1;
        }
        proof {
            assert forall|id: u32| ids@.contains(id) <==> self@.dom().contains(id) by {
                if ids@.contains(id) {
                    let m = choose|m: int| 0 <= m < ids@.len() && ids@[m] == id;
                    assert(keys@.contains(keys@[m]));
                }
                if self@.dom().contains(id) {
                    assert(keys@.contains(id as u64));
                    let m = choose|m: int| 0 <= m < keys@.len() && keys@[m] == id as u64;
                    assert(ids@[m] == id);
                }
            }
        }
        crate::ordering::unique(ids)
    }
}

/// Nodes and finite elements of a calculation scheme.
#[derive(Debug)]
pub struct MeshData {
    pub nodes: NodeMap,
    pub elements: Vec<ElementData>,
}

impl Default for MeshData {
    fn default() -> (r: MeshData)
        ensures
            r.nodes@ == Map::<u32, Point>::empty(),
            r.elements@ == Seq::<ElementData>::empty(),
    {
        MeshData { nodes: NodeMap::new(), elements: Vec::new() }
    }
}

/// One finite element.
#[derive(Debug, Clone)]
pub struct ElementData {
    pub id: u32,
    pub elem_type: u32,
    pub stiff_id: u32,
    pub nodes: Vec<u32>,
}

/// Explicitly supported LIRA element families; unknown types are retained, not
/// guessed.
impl ElementData {
    pub open spec fn shell(&self) -> bool {
        ||| (self.elem_type == 41 || self.elem_type == 44) && self.nodes@.len() == 4
        ||| self.elem_type == 42 && self.nodes@.len() == 3
    }

    pub open spec fn bar(&self) -> bool {
        self.elem_type == 10 && self.nodes@.len() == 2
    }

    pub fn is_shell(&self) -> (r: bool)
        ensures
            r == self.shell(),
    {
        ((self.elem_type == 41 || self.elem_type == 44) && self.nodes.len() == 4) || (self.elem_type
            == 42 && self.nodes.len() == 3)
    }

    pub fn is_bar(&self) -> (r: bool)
        ensures
            r == self.bar(),
    {
        self.elem_type == 10 && self.nodes.len() == 2
    }
}

/// No element is taken for both a shell and a bar.
pub proof fn families_disjoint(element: ElementData)
    ensures
        !(element.shell() && element.bar()),
{
}

/// What an element is depends on its type and on how many nodes it has. Only type 10 with
/// two nodes is a bar; only types 41 and 44 with four nodes and type 42 with three are shells.
pub proof fn families_go_by_type(element: ElementData)
    ensures
        element.bar() ==> element.elem_type == 10,
        element.shell() ==> element.elem_type == 41 || element.elem_type == 42 || element.elem_type == 44,
        element.elem_type == 10 ==> (element.bar() <==> element.nodes@.len() == 2),
        element.elem_type == 42 ==> (element.shell() <==> element.nodes@.len() == 3),
        element.elem_type == 41 || element.elem_type == 44 ==> (element.shell() <==> element.nodes@.len() == 4),
{
}

/// The number, the stiffness and the names of the nodes do not matter for it.
pub proof fn families_go_by_nothing_else(a: ElementData, b: ElementData)
    requires
        a.elem_type == b.elem_type,
        a.nodes@.len() == b.nodes@.len(),
    ensures
        a.bar() == b.bar(),
        a.shell() == b.shell(),
{
}

} // verus!
