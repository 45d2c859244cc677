//! Welding of nodes and cleaning of contours.
use vstd::prelude::*;
use crate::geometry::topology::{finite_point, is_finite_point};
use crate::input::NodeMap;
use crate::ordering::{ascending, ascending_determined, ascending_indices, pushed_contains};
use crate::points::{is_same_value, same_value};
use crate::registry::Lists;
use crate::scalar::Scalar;
use crate::table::HashTable;

verus! {

/// The node that stands for each node.
#[derive(Debug)]
pub struct NodeNames {
    entries: HashTable,
}

impl View for NodeNames {
    type V = Map<u32, u32>;

    closed spec fn view(&self) -> Map<u32, u32> {
        Map::new(
            |id: u32| self.entries@.dom().contains(id as u64),
            |id: u32| self.entries@[id as u64] as u32,
        )
    }
}

/// The name of a node; one that was not named keeps its number.
pub open spec fn name_of(names: Map<u32, u32>, id: u32) -> u32 {
    if names.dom().contains(id) {
        names[id]
    } else {
        id
    }
}

impl NodeNames {
    #[verifier::type_invariant]
    spec fn well_formed(self) -> bool {
        forall|x: u64| #[trigger] self.entries@.dom().contains(x) ==> self.entries@[x] <= u32::MAX
    }

    pub fn new() -> (r: NodeNames)
        ensures
            r@ == Map::<u32, u32>::empty(),
    {
        let r = NodeNames { entries: HashTable::new() };
        assert(r@ =~= Map::<u32, u32>::empty());
        r
    }

    pub fn insert(&mut self, id: u32, name: u32)
        ensures
            final(self)@ == old(self)@.insert(id, name),
    {
        proof {
            use_type_invariant(&*self);
        }
        let mut entries = HashTable::new();
        std::mem::swap(&mut self.entries, &mut entries);
        entries.insert(id as u64, name as usize);
        self.entries = entries;
        assert(self@ =~= old(self)@.insert(id, name));
    }

    /// The name given to a node, where one was given.
    pub fn get(&self, id: u32) -> (r: Option<u32>)
        ensures
            match r {
                Some(name) => self@.dom().contains(id) && self@[id] == name,
                None => !self@.dom().contains(id),
            },
    {
        proof {
            use_type_invariant(self);
        }
        match self.entries.get(id as u64) {
            Some(name) => Some(name as u32),
            None => None,
        }
    }

    pub fn canonical(&self, id: u32) -> (r: u32)
        ensures
            r == name_of(self@, id),
    {
        match self.get(id) {
            Some(name) => name,
            None => id,
        }
    }
}

pub open spec fn renamed_before(names: Map<u32, u32>, ids: Seq<u32>, upto: int) -> nat
    decreases upto,
{
    if upto <= 0 {
        0
    } else if name_of(names, ids[upto - 1]) != ids[upto - 1] {
        renamed_before(names, ids, upto - 1) + 1
    } else {
        renamed_before(names, ids, upto - 1)
    }
}

/// How many nodes go by another's number.
pub fn count_welded(names: &NodeNames, ids: &Vec<u32>) -> (r: usize)
    ensures
        r == renamed_before(names@, ids@, ids@.len() as int),
{
    let mut r: usize = 0;
    let mut k: usize = 0;
    while k < ids.len()
        invariant
            k <= ids@.len(),
            r <= k,
            r == renamed_before(names@, ids@, k as int),
        decreases ids@.len() - k,
    {
        if names.canonical(ids[k]) != ids[k] {
            r += 1;
        }
        k += 1;
    }
    r
}

/// A cell of the grid whose spacing is the welding radius.
pub type Cell = [i64; 3];

/// A node that others are welded to, with its cell.
#[derive(Debug, Clone, Copy)]
pub struct Representative {
    pub id: u32,
    pub cell: Cell,
}

/// A cell coordinate that is one lower, the same or one higher.
pub open spec fn beside(a: i64, b: i64) -> bool {
    b == a || b == a - 1 || b == a + 1
}

pub open spec fn neighbouring(a: Cell, b: Cell) -> bool {
    beside(a[0], b[0]) && beside(a[1], b[1]) && beside(a[2], b[2])
}

spec fn stepped(a: i64, step: int) -> i64 {
    if step == 0 {
        if a == i64::MIN {
            a
        } else {
            (a - 1) as i64
        }
    } else if step == 1 {
        a
    } else {
        if a == i64::MAX {
            a
        } else {
            (a + 1) as i64
        }
    }
}

fn step_from(a: i64, step: usize) -> (r: i64)
    requires
        step < 3,
    ensures
        r == stepped(a, step as int),
{
    if step == 0 {
        if a == i64::MIN {
            a
        } else {
            a - 1
        }
    } else if step == 1 {
        a
    } else {
        if a == i64::MAX {
            a
        } else {
            a + 1
        }
    }
}

spec fn neighbour_at(cell: Cell, m: int) -> Cell {
    [stepped(cell[0], m / 9), stepped(cell[1], (m / 3) % 3), stepped(cell[2], m % 3)]
}

proof fn neighbour_found(cell: Cell, other: Cell) -> (m: int)
    requires
        neighbouring(cell, other),
    ensures
        0 <= m < 27,
        neighbour_at(cell, m)@ == other@,
{
    let dx: int = if other[0] == cell[0] - 1 {
        0
    } else if other[0] == cell[0] {
        1
    } else {
        2
    };
    let dy: int = if other[1] == cell[1] - 1 {
        0
    } else if other[1] == cell[1] {
        1
    } else {
        2
    };
    let dz: int = if other[2] == cell[2] - 1 {
        0
    } else if other[2] == cell[2] {
        1
    } else {
        2
    };
    let m = 9 * dx + 3 * dy + dz;
    assert(m / 9 == dx && (m / 3) % 3 == dy && m % 3 == dz);
    assert(neighbour_at(cell, m)@ =~= other@);
    m
}

/// Where a cell is looked up.
spec fn slot_of(cell: Seq<i64>) -> u64 {
    (cell[0] as u64) ^ ((cell[1] as u64) << 21u64) ^ ((cell[2] as u64) << 42u64)
}

fn cell_slot(cell: &Cell) -> (r: u64)
    ensures
        r == slot_of(cell@),
{
    (cell[0] as u64) ^ ((cell[1] as u64) << 21u64) ^ ((cell[2] as u64) << 42u64)
}

fn same_cell(a: &Cell, b: &Cell) -> (r: bool)
    ensures
        r == (a@ == b@),
{
    let r: bool = a[0] == b[0] && a[1] == b[1] && a[2] == b[2];
    if r {
        assert(a@ =~= b@);
    }
    r
}

/// Nodes welded so far. Only representatives are looked up, so that welding in
/// chains cannot exceed the radius.
#[derive(Debug)]
pub struct Welding {
    names: NodeNames,
    representatives: Vec<Representative>,
    slots: Lists,
}

/// Representatives go by their own number.
pub open spec fn own_names(names: Map<u32, u32>, representatives: Seq<Representative>) -> bool {
    &&& forall|k: int|
        0 <= k < representatives.len() ==> names.dom().contains((#[trigger] representatives[k]).id)
            && names[representatives[k].id] == representatives[k].id
    &&& forall|id: u32| #[trigger]
        names.dom().contains(id) ==> exists|k: int|
            0 <= k < representatives.len() && (#[trigger] representatives[k]).id == names[id]
}

pub open spec fn all_neighbours(found: Seq<usize>, representatives: Seq<Representative>, cell: Cell) -> bool {
    forall|k: usize| #[trigger]
        found.contains(k) <==> k < representatives.len() && neighbouring(cell, representatives[k as int].cell)
}

/// The closest representative within the radius; of equally close ones the one
/// with the lowest number.
pub open spec fn closest(
    representatives: Seq<Representative>,
    found: Seq<usize>,
    distances: Seq<Scalar>,
    radius: Scalar,
    k: int,
) -> bool {
    &&& 0 <= k < found.len()
    &&& distances[k].le(radius)
    &&& forall|m: int|
        0 <= m < found.len() && (#[trigger] distances[m]).le(radius) ==> distances[k].lt(distances[m]) || (
        same_value(distances[k], distances[m]) && representatives[found[k] as int].id
            <= representatives[found[m] as int].id)
}

pub open spec fn none_close(distances: Seq<Scalar>, radius: Scalar) -> bool {
    forall|m: int| 0 <= m < distances.len() ==> !(#[trigger] distances[m]).le(radius)
}

impl Welding {
    pub closed spec fn names(&self) -> Map<u32, u32> {
        self.names@
    }

    pub closed spec fn representatives(&self) -> Seq<Representative> {
        self.representatives@
    }

    pub closed spec fn well_formed(&self) -> bool {
        &&& self.slots.well_formed()
        &&& forall|s: u64, e: int|
            0 <= e < self.slots.at(s).len() ==> #[trigger] self.slots.at(s)[e] < self.representatives@.len()
        &&& forall|k: int|
            0 <= k < self.representatives@.len() ==> self.slots.at(
                slot_of((#[trigger] self.representatives@[k]).cell@),
            ).contains(k as usize)
        &&& own_names(self.names@, self.representatives@)
        &&& self.representatives@.len() <= usize::MAX
    }

    pub fn new() -> (r: Welding)
        ensures
            r.well_formed(),
            r.names() == Map::<u32, u32>::empty(),
            r.representatives() == Seq::<Representative>::empty(),
    {
        Welding { names: NodeNames::new(), representatives: Vec::new(), slots: Lists::new() }
    }

    pub fn representative(&self, k: usize) -> (r: u32)
        requires
            k < self.representatives().len(),
        ensures
            r == self.representatives()[k as int].id,
    {
        self.representatives[k].id
    }

    /// The representatives in a cell and in the cells around it.
    #[verifier::loop_isolation(false)]
    pub fn nearby(&self, cell: &Cell) -> (r: Vec<usize>)
        requires
            self.well_formed(),
        ensures
            all_neighbours(r@, self.representatives(), *cell),
    {
        let mut r: Vec<usize> = Vec::new();
        let mut m: usize = 0;
        while m < 27
            invariant
                m <= 27,
                forall|e: int|
                    0 <= e < r@.len() ==> #[trigger] r@[e] < self.representatives@.len() && neighbouring(*cell, self.representatives@[r@[e] as int].cell),
                forall|k: usize, n: int|
                    k < self.representatives@.len() && 0 <= n < m && self.representatives@[k as int].cell@ == (#[trigger] neighbour_at(*cell, n))@ ==> #[trigger] r@.contains(k),
            decreases 27 - m,
        {
            let other: Cell = [
                step_from(cell[0], m / 9),
                step_from(cell[1], (m / 3) % 3),
                step_from(cell[2], m % 3),
            ];
            assert(other@ =~= neighbour_at(*cell, m as int)@);
            let ghost before = r@;
            let list = self.slots.get(cell_slot(&other));
            let mut e: usize = 0;
            while e < list.len()
                invariant
                    e <= list@.len(),
                    forall|d: int|
                        0 <= d < r@.len() ==> #[trigger] r@[d] < self.representatives@.len() && neighbouring(*cell, self.representatives@[r@[d] as int].cell),
                    forall|k: usize| before.contains(k) ==> #[trigger] r@.contains(k),
                    forall|d: int|
                        0 <= d < e && self.representatives@[list@[d] as int].cell@ == other@ ==> r@.contains(#[trigger] list@[d]),
                decreases list@.len() - e,
            {
                let k: usize = list[e];
                assert(self.slots.at(slot_of(other@))[e as int] < self.representatives@.len());
                let ghost so_far = r@;
                if same_cell(&self.representatives[k].cell, &other) {
                    r.push(k);
                    proof {
                        assert(r@[so_far.len() as int] == k);
                        assert(self.representatives@[k as int].cell[0] == other@[0]);
                        assert(self.representatives@[k as int].cell[1] == other@[1]);
                        assert(self.representatives@[k as int].cell[2] == other@[2]);
                        assert(neighbouring(*cell, self.representatives@[k as int].cell));
                    }
                }
                proof {
                    assert forall|x: usize| so_far.contains(x) implies #[trigger] r@.contains(x) by {
                        let d = choose|d: int| 0 <= d < so_far.len() && so_far[d] == x;
                        assert(r@[d] == x);
                    }
                    assert forall|d: int| 0 <= d < r@.len() implies #[trigger] r@[d] < self.representatives@.len() && neighbouring(*cell, self.representatives@[r@[d] as int].cell) by {
                        if d < so_far.len() {
                            assert(r@[d] == so_far[d]);
                        }
                    }
                }
                e += 1;
            }
            proof {
                assert forall|k: usize, n: int|
                    k < self.representatives@.len() && 0 <= n < m + 1 && self.representatives@[k as int].cell@ == (#[trigger] neighbour_at(*cell, n))@ implies #[trigger] r@.contains(k) by {
                    if n == m {
                        let own = self.representatives@[k as int].cell;
                        assert(own@ == other@);
                        assert(self.slots.at(slot_of(own@)).contains(k));
                        let d = choose|d: int| 0 <= d < list@.len() && list@[d] == k;
                        assert(r@.contains(list@[d]));
                    } else {
                        assert(before.contains(k));
                    }
                }
            }
            m += 1;
        }
        proof {
            assert forall|k: usize| #[trigger] r@.contains(k) <==> k < self.representatives@.len() && neighbouring(*cell, self.representatives@[k as int].cell) by {
                if r@.contains(k) {
                    let e = choose|e: int| 0 <= e < r@.len() && r@[e] == k;
                    assert(r@[e] < self.representatives@.len());
                }
                if k < self.representatives@.len() && neighbouring(*cell, self.representatives@[k as int].cell) {
                    let n = neighbour_found(*cell, self.representatives@[k as int].cell);
                    assert(neighbour_at(*cell, n)@ == self.representatives@[k as int].cell@);
                }
            }
        }
        r
    }

    /// Names a node after the closest representative, or makes it one. `found` are
    /// the representatives around its cell, with their distances.
    pub fn weld(
        &mut self,
        id: u32,
        cell: Cell,
        found: &Vec<usize>,
        distances: &Vec<Scalar>,
        radius: &Scalar,
    ) -> (r: u32)
        requires
            old(self).well_formed(),
            !old(self).names().dom().contains(id),
            all_neighbours(found@, old(self).representatives(), cell),
            distances@.len() == found@.len(),
            old(self).representatives().len() < usize::MAX,
        ensures
            final(self).well_formed(),
            welded(*old(self), *final(self), id, cell, found@, distances@, *radius, r),
    {
        let mut best: Option<usize> = None;
        let mut k: usize = 0;
        assert forall|e: int| 0 <= e < found@.len() implies #[trigger] found@[e] < self.representatives@.len() by {
            assert(found@.contains(found@[e]));
        }
        while k < found.len()
            invariant
                k <= found@.len(),
                distances@.len() == found@.len(),
                self.representatives@ == old(self).representatives@,
                self.names@ == old(self).names@,
                *self == *old(self),
                forall|e: int| 0 <= e < found@.len() ==> #[trigger] found@[e] < self.representatives@.len(),
                match best {
                    Some(b) => b < k && distances@[b as int].le(*radius) && forall|m: int|
                        0 <= m < k && (#[trigger] distances@[m]).le(*radius) ==> distances@[b as int].lt(distances@[m]) || (same_value(distances@[b as int], distances@[m]) && self.representatives@[found@[b as int] as int].id <= self.representatives@[found@[m] as int].id),
                    None => forall|m: int| 0 <= m < k ==> !(#[trigger] distances@[m]).le(*radius),
                },
            decreases found@.len() - k,
        {
            if distances[k].at_most(radius) {
                match best {
                    Some(b) => {
                        if distances[k].less(&distances[b]) || (is_same_value(&distances[k], &distances[b]) && self.representatives[found[k]].id < self.representatives[found[b]].id) {
                            best = Some(k);
                        }
                    },
                    None => {
                        best = Some(k);
                    },
                }
            }
            k += 1;
        }
        match best {
            Some(b) => {
                let name: u32 = self.representatives[found[b]].id;
                self.names.insert(id, name);
                proof {
                    assert(closest(old(self).representatives@, found@, distances@, *radius, b as int));
                    let reps = self.representatives@;
                    assert(reps[found@[b as int] as int].id == name);
                    assert forall|x: u32| #[trigger] self.names@.dom().contains(x) implies exists|j: int| 0 <= j < reps.len() && (#[trigger] reps[j]).id == self.names@[x] by {
                        if x == id {
                            assert(reps[found@[b as int] as int].id == self.names@[x]);
                        } else {
                            assert(old(self).names@.dom().contains(x));
                        }
                    }
                    assert forall|j: int| 0 <= j < reps.len() implies self.names@.dom().contains((#[trigger] reps[j]).id) && self.names@[reps[j].id] == reps[j].id by {
                        assert(old(self).names@.dom().contains(reps[j].id));
                    }
                }
                name
            },
            None => {
                let slot: u64 = cell_slot(&cell);
                let index: usize = self.representatives.len();
                self.representatives.push(Representative { id, cell });
                self.slots.push(slot, index);
                self.names.insert(id, id);
                proof {
                    let reps = self.representatives@;
                    let before = old(self).representatives@;
                    assert forall|s: u64, e: int| 0 <= e < self.slots.at(s).len() implies #[trigger] self.slots.at(s)[e] < reps.len() by {
                        if s == slot {
                            if e < old(self).slots.at(s).len() {
                                assert(old(self).slots.at(s)[e] < before.len());
                            }
                        } else {
                            assert(old(self).slots.at(s)[e] < before.len());
                        }
                    }
                    assert forall|j: int| 0 <= j < reps.len() implies self.slots.at(slot_of((#[trigger] reps[j]).cell@)).contains(j as usize) by {
                        let s = slot_of(reps[j].cell@);
                        if j < before.len() {
                            assert(reps[j] == before[j]);
                            assert(old(self).slots.at(s).contains(j as usize));
                            let e = choose|e: int| 0 <= e < old(self).slots.at(s).len() && old(self).slots.at(s)[e] == j as usize;
                            assert(self.slots.at(s)[e] == j as usize);
                        } else {
                            let old_list = old(self).slots.at(slot);
                            assert(self.slots.at(slot)[old_list.len() as int] == index);
                        }
                    }
                    assert forall|x: u32| #[trigger] self.names@.dom().contains(x) implies exists|j: int| 0 <= j < reps.len() && (#[trigger] reps[j]).id == self.names@[x] by {
                        if x == id {
                            assert(reps[before.len() as int].id == id);
                        } else {
                            assert(old(self).names@.dom().contains(x));
                            let j = choose|j: int| 0 <= j < before.len() && (#[trigger] before[j]).id == old(self).names@[x];
                            assert(reps[j].id == self.names@[x]);
                        }
                    }
                    assert forall|j: int| 0 <= j < reps.len() implies self.names@.dom().contains((#[trigger] reps[j]).id) && self.names@[reps[j].id] == reps[j].id by {
                        if j < before.len() {
                            assert(reps[j] == before[j]);
                            assert(old(self).names@.dom().contains(before[j].id));
                        }
                    }
                }
                id
            },
        }
    }

    pub fn into_names(self) -> (r: NodeNames)
        ensures
            r@ == self.names(),
    {
        self.names
    }
}

/// A name is its own name: welding does not run in chains.
pub proof fn names_are_settled(welding: Welding, id: u32)
    requires
        welding.well_formed(),
    ensures
        name_of(welding.names(), name_of(welding.names(), id)) == name_of(welding.names(), id),
{
    let names = welding.names@;
    if names.dom().contains(id) {
        let k = choose|k: int|
            0 <= k < welding.representatives@.len() && (#[trigger] welding.representatives@[k]).id == names[id];
        assert(names.dom().contains(welding.representatives@[k].id));
    }
}

/// The first of the closest lines that are within the limit.
pub open spec fn nearest_line(distances: Seq<Scalar>, limit: Scalar, k: int) -> bool {
    &&& 0 <= k < distances.len()
    &&& distances[k].lt(limit)
    &&& forall|m: int| 0 <= m < k && (#[trigger] distances[m]).lt(limit) ==> distances[k].lt(distances[m])
    &&& forall|m: int| k < m < distances.len() ==> !(#[trigger] distances[m]).lt(distances[k])
}

/// The wall line that a contour point is drawn to.
pub fn find_nearest_line(distances: &Vec<Scalar>, limit: &Scalar) -> (r: Option<usize>)
    ensures
        match r {
            Some(k) => nearest_line(distances@, *limit, k as int),
            None => forall|m: int| 0 <= m < distances@.len() ==> !(#[trigger] distances@[m]).lt(*limit),
        },
{
    let mut best: Option<usize> = None;
    let mut k: usize = 0;
    while k < distances.len()
        invariant
            k <= distances@.len(),
            match best {
                Some(b) => {
                    &&& b < k
                    &&& distances@[b as int].lt(*limit)
                    &&& forall|m: int| 0 <= m < b && (#[trigger] distances@[m]).lt(*limit) ==> distances@[b as int].lt(distances@[m])
                    &&& forall|m: int| b < m < k ==> !(#[trigger] distances@[m]).lt(distances@[b as int])
                },
                None => forall|m: int| 0 <= m < k ==> !(#[trigger] distances@[m]).lt(*limit),
            },
        decreases distances@.len() - k,
    {
        match best {
            Some(b) => {
                if distances[k].less(&distances[b]) {
                    best = Some(k);
                }
            },
            None => {
                if distances[k].less(limit) {
                    best = Some(k);
                }
            },
        }
        k += 1;
    }
    best
}

/// The points whose edge to the next point is long enough.
pub open spec fn long_edges(lengths: Seq<Scalar>, shortest: Scalar, upto: int) -> Seq<usize>
    decreases upto,
{
    if upto <= 0 {
        Seq::empty()
    } else if shortest.le(lengths[upto - 1]) {
        long_edges(lengths, shortest, upto - 1).push((upto - 1) as usize)
    } else {
        long_edges(lengths, shortest, upto - 1)
    }
}

pub open spec fn every_index(n: int) -> Seq<usize> {
    Seq::new(n as nat, |i: int| i as usize)
}

fn all_points(n: usize) -> (r: Vec<usize>)
    ensures
        r@ == every_index(n as int),
{
    let mut r: Vec<usize> = Vec::new();
    let mut k: usize = 0;
    while k < n
        invariant
            k <= n,
            r@ =~= every_index(k as int),
        decreases n - k,
    {
        r.push(k);
        k += 1;
    }
    r
}

/// Drops the points that begin a short edge, unless fewer than three would stay.
/// `lengths` holds the length of the edge that begins at each point.
pub fn remove_short_edges_3d(lengths: &Vec<Scalar>, shortest: &Scalar) -> (r: Vec<usize>)
    ensures
        ({
            let kept = long_edges(lengths@, *shortest, lengths@.len() as int);
            r@ == if lengths@.len() < 3 || kept.len() < 3 {
                every_index(lengths@.len() as int)
            } else {
                kept
            }
        }),
{
    if lengths.len() < 3 {
        return all_points(lengths.len());
    }
    let mut kept: Vec<usize> = Vec::new();
    let mut k: usize = 0;
    while k < lengths.len()
        invariant
            k <= lengths@.len(),
            kept@ == long_edges(lengths@, *shortest, k as int),
        decreases lengths@.len() - k,
    {
        if shortest.at_most(&lengths[k]) {
            kept.push(k);
        }
        k += 1;
    }
    if kept.len() >= 3 {
        kept
    } else {
        all_points(lengths.len())
    }
}

/// What is measured at a point of a contour.
#[derive(Debug, Clone, Copy)]
pub struct Corner {
    pub length_before: Scalar,
    pub length_after: Scalar,
    /// Cosine of the turn.
    pub turn: Scalar,
}

pub open spec fn turns(corner: Corner, shortest: Scalar, straight: Scalar) -> bool {
    !corner.length_before.lt(shortest) && !corner.length_after.lt(shortest) && !straight.lt(corner.turn)
}

pub open spec fn turning(corners: Seq<Corner>, shortest: Scalar, straight: Scalar, upto: int) -> Seq<usize>
    decreases upto,
{
    if upto <= 0 {
        Seq::empty()
    } else if turns(corners[upto - 1], shortest, straight) {
        turning(corners, shortest, straight, upto - 1).push((upto - 1) as usize)
    } else {
        turning(corners, shortest, straight, upto - 1)
    }
}

/// One pass that drops the points where a contour does not turn. It is repeated
/// on what is left until all points stay.
pub fn clean_polygon_coords_3d(corners: &Vec<Corner>, shortest: &Scalar, straight: &Scalar) -> (r: Vec<usize>)
    ensures
        r@ == turning(corners@, *shortest, *straight, corners@.len() as int),
{
    let mut r: Vec<usize> = Vec::new();
    let mut k: usize = 0;
    while k < corners.len()
        invariant
            k <= corners@.len(),
            r@ == turning(corners@, *shortest, *straight, k as int),
        decreases corners@.len() - k,
    {
        if !corners[k].length_before.less(shortest) && !corners[k].length_after.less(shortest)
            && !straight.less(&corners[k].turn) {
            r.push(k);
        }
        k += 1;
    }
    r
}

/// The nodes that are welded: those at a finite place, ascending.
pub fn weldable_nodes(nodes: &NodeMap) -> (r: Vec<u32>)
    ensures
        ascending(r@),
        forall|id: u32| #[trigger] r@.contains(id) <==> nodes@.dom().contains(id) && finite_point(nodes@[id]),
{
    let ids = nodes.ids();
    let mut r: Vec<u32> = Vec::new();
    let mut k: usize = 0;
    while k < ids.len()
        invariant
            k <= ids@.len(),
            ascending(ids@),
            ascending(r@),
            forall|m: int| 0 <= m < r@.len() ==> ids@.take(k as int).contains(#[trigger] r@[m]) && nodes@.dom().contains(r@[m]) && finite_point(nodes@[r@[m]]),
            forall|m: int| 0 <= m < k && nodes@.dom().contains(#[trigger] ids@[m]) && finite_point(nodes@[ids@[m]]) ==> r@.contains(ids@[m]),
        decreases ids@.len() - k,
    {
        let id: u32 = ids[k];
        let ghost before = r@;
        let fits: bool = match nodes.get(id) {
            Some(place) => is_finite_point(&place),
            None => false,
        };
        if fits {
            r.push(id);
        }
        proof {
            let shorter = ids@.take(k as int);
            let longer = ids@.take(k + 1);
            assert forall|m: int| 0 <= m < before.len() implies longer.contains(#[trigger] before[m]) && before[m] < id by {
                assert(shorter.contains(before[m]));
                let n = choose|n: int| 0 <= n < shorter.len() && shorter[n] == before[m];
                assert(longer[n] == before[m]);
                assert(ids@[n] < ids@[k as int]);
            }
            assert(longer[k as int] == id);
            assert forall|m: int| 0 <= m < r@.len() implies longer.contains(#[trigger] r@[m]) by {
                if m < before.len() {
                    assert(r@[m] == before[m]);
                }
            }
            assert forall|x: u32| before.contains(x) implies #[trigger] r@.contains(x) by {
                let m = choose|m: int| 0 <= m < before.len() && before[m] == x;
                assert(r@[m] == x);
            }
            if fits {
                assert(r@[before.len() as int] == id);
            }
        }
        k += 1;
    }
    proof {
        assert forall|id: u32| #[trigger] r@.contains(id) <==> nodes@.dom().contains(id) && finite_point(nodes@[id]) by {
            if nodes@.dom().contains(id) && finite_point(nodes@[id]) {
                assert(ids@.contains(id));
            }
        }
    }
    r
}

/// What naming one node does.
pub open spec fn welded(
    before: Welding,
    after: Welding,
    id: u32,
    cell: Cell,
    found: Seq<usize>,
    distances: Seq<Scalar>,
    radius: Scalar,
    name: u32,
) -> bool {
    &&& after.names() == before.names().insert(id, name)
    &&& if none_close(distances, radius) {
        name == id && after.representatives() == before.representatives().push((Representative { id, cell }))
    } else {
        after.representatives() == before.representatives() && exists|k: int| #[trigger]
            closest(before.representatives(), found, distances, radius, k) && name
                == before.representatives()[found[k] as int].id
    }
}

/// The distances are those of a node to the representatives around its cell.
pub open spec fn measured_around(
    before: Welding,
    id: u32,
    cell: Cell,
    found: Seq<usize>,
    distances: Seq<Scalar>,
    distance: spec_fn(u32, u32) -> Scalar,
) -> bool {
    &&& all_neighbours(found, before.representatives(), cell)
    &&& distances.len() == found.len()
    &&& forall|m: int|
        0 <= m < found.len() ==> #[trigger] distances[m] == distance(
            id,
            before.representatives()[found[m] as int].id,
        )
}

/// One node is named by what is measured of it.
pub open spec fn named_next(
    before: Welding,
    after: Welding,
    id: u32,
    cells: spec_fn(u32) -> Cell,
    distance: spec_fn(u32, u32) -> Scalar,
    radius: Scalar,
) -> bool {
    exists|found: Seq<usize>, distances: Seq<Scalar>, name: u32| #[trigger]
        welded(before, after, id, cells(id), found, distances, radius, name) && measured_around(
            before,
            id,
            cells(id),
            found,
            distances,
            distance,
        )
}

/// A welding from its beginning, node by node.
pub open spec fn weld_run(
    states: Seq<Welding>,
    ids: Seq<u32>,
    cells: spec_fn(u32) -> Cell,
    distance: spec_fn(u32, u32) -> Scalar,
    radius: Scalar,
) -> bool {
    &&& states.len() == ids.len() + 1
    &&& states[0].names() == Map::<u32, u32>::empty()
    &&& states[0].representatives() == Seq::<Representative>::empty()
    &&& forall|k: int|
        0 <= k < ids.len() ==> named_next(states[k], states[k + 1], #[trigger] ids[k], cells, distance, radius)
}

/// What holds of the names of the first nodes: each node goes by a node that goes by
/// itself, that is not numbered higher and that is within the radius of it.
pub open spec fn names_hold(
    names: Map<u32, u32>,
    ids: Seq<u32>,
    distance: spec_fn(u32, u32) -> Scalar,
    radius: Scalar,
) -> bool {
    &&& forall|id: u32| #[trigger] names.dom().contains(id) <==> ids.contains(id)
    &&& forall|id: u32| #[trigger]
        names.dom().contains(id) ==> {
            let name = names[id];
            &&& names.dom().contains(name)
            &&& names[name] == name
            &&& name <= id
            &&& name != id ==> distance(id, name).le(radius)
        }
}

/// Two nodes that go by themselves are farther apart than the radius, if their cells
/// are neighbours at all.
pub open spec fn representatives_apart(
    names: Map<u32, u32>,
    cells: spec_fn(u32) -> Cell,
    distance: spec_fn(u32, u32) -> Scalar,
    radius: Scalar,
) -> bool {
    forall|a: u32, b: u32|
        #![trigger names.dom().contains(a), names.dom().contains(b)]
        a < b && names.dom().contains(a) && names.dom().contains(b) && names[a] == a && names[b] == b && neighbouring(
            cells(b),
            cells(a),
        ) ==> !distance(b, a).le(radius)
}

/// The representatives are the nodes that go by themselves, with their cells.
spec fn represents(names: Map<u32, u32>, representatives: Seq<Representative>, cells: spec_fn(u32) -> Cell) -> bool {
    &&& forall|k: int|
        0 <= k < representatives.len() ==> names.dom().contains((#[trigger] representatives[k]).id)
            && names[representatives[k].id] == representatives[k].id && representatives[k].cell == cells(
            representatives[k].id,
        )
    &&& forall|id: u32| #[trigger]
        names.dom().contains(id) && names[id] == id ==> exists|k: int|
            0 <= k < representatives.len() && (#[trigger] representatives[k]).id == id
}

proof fn run_holds(
    states: Seq<Welding>,
    ids: Seq<u32>,
    cells: spec_fn(u32) -> Cell,
    distance: spec_fn(u32, u32) -> Scalar,
    radius: Scalar,
    k: int,
)
    requires
        weld_run(states, ids, cells, distance, radius),
        ascending(ids),
        ids.len() <= usize::MAX,
        0 <= k <= ids.len(),
    ensures
        states[k].representatives().len() <= k,
        names_hold(states[k].names(), ids.take(k), distance, radius),
        representatives_apart(states[k].names(), cells, distance, radius),
        represents(states[k].names(), states[k].representatives(), cells),
    decreases k,
{
    if k > 0 {
        run_holds(states, ids, cells, distance, radius, k - 1);
        let (before, after) = (states[k - 1], states[k]);
        let id = ids[k - 1];
        assert(named_next(states[k - 1], states[k - 1 + 1], ids[k - 1], cells, distance, radius));
        let (found, distances, name) = choose|found: Seq<usize>, distances: Seq<Scalar>, name: u32| #[trigger]
            welded(before, after, id, cells(id), found, distances, radius, name) && measured_around(before, id, cells(id), found, distances, distance);
        let (old_names, names) = (before.names(), after.names());
        let reps = before.representatives();
        let shorter = ids.take(k - 1);
        let longer = ids.take(k);
        assert(longer =~= shorter.push(id));
        assert forall|x: u32| #[trigger] old_names.dom().contains(x) implies x < id by {
            assert(shorter.contains(x));
            let m = choose|m: int| 0 <= m < shorter.len() && shorter[m] == x;
            assert(ids[m] < ids[k - 1]);
        }
        assert(!old_names.dom().contains(id));
        let joined = !none_close(distances, radius);
        if joined {
            let m = choose|m: int| #[trigger] closest(reps, found, distances, radius, m) && name == reps[found[m] as int].id;
            assert(found.contains(found[m]));
            assert(distances[m] == distance(id, reps[found[m] as int].id));
            assert(old_names.dom().contains(reps[found[m] as int].id));
            assert(name < id && old_names[name] == name && distance(id, name).le(radius));
        }
        assert forall|x: u32| #[trigger] names.dom().contains(x) <==> longer.contains(x) by {
            if shorter.contains(x) {
                let m = choose|m: int| 0 <= m < shorter.len() && shorter[m] == x;
                assert(longer[m] == x);
            }
            if longer.contains(x) {
                let m = choose|m: int| 0 <= m < longer.len() && longer[m] == x;
                if m < k - 1 {
                    assert(shorter[m] == x);
                }
            }
            assert(longer[k - 1] == id);
            assert(old_names.dom().contains(x) <==> shorter.contains(x));
        }
        assert forall|x: u32| #[trigger] names.dom().contains(x) implies ({
            let n = names[x];
            &&& names.dom().contains(n)
            &&& names[n] == n
            &&& n <= x
            &&& n != x ==> distance(x, n).le(radius)
        }) by {
            if x != id {
                assert(old_names.dom().contains(x));
                assert(old_names.dom().contains(old_names[x]));
                assert(old_names[x] < id);
            }
        }
        assert(names_hold(names, longer, distance, radius));
        let now = after.representatives();
        assert forall|j: int| 0 <= j < now.len() implies names.dom().contains((#[trigger] now[j]).id) && names[now[j].id] == now[j].id && now[j].cell == cells(now[j].id) by {
            if j < reps.len() {
                assert(now[j] == reps[j]);
                assert(old_names.dom().contains(reps[j].id));
            }
        }
        assert forall|x: u32| #[trigger] names.dom().contains(x) && names[x] == x implies exists|j: int| 0 <= j < now.len() && (#[trigger] now[j]).id == x by {
            if x == id {
                assert(now[reps.len() as int].id == id);
            } else {
                assert(old_names.dom().contains(x) && old_names[x] == x);
                let j = choose|j: int| 0 <= j < reps.len() && (#[trigger] reps[j]).id == x;
                assert(now[j].id == x);
            }
        }
        assert forall|a: u32, b: u32|
            #![trigger names.dom().contains(a), names.dom().contains(b)]
            a < b && names.dom().contains(a) && names.dom().contains(b) && names[a] == a && names[b] == b && neighbouring(cells(b), cells(a)) implies !distance(b, a).le(radius) by {
            if b == id {
                assert(!joined);
                assert(old_names.dom().contains(a) && old_names[a] == a);
                let j = choose|j: int| 0 <= j < reps.len() && (#[trigger] reps[j]).id == a;
                assert(reps[j].cell == cells(a));
                assert(found.contains(j as usize)) by {
                    assert(j <= usize::MAX);
                }
                let m = choose|m: int| 0 <= m < found.len() && found[m] == j as usize;
                assert(distances[m] == distance(id, a));
                assert(!distances[m].le(radius));
            } else {
                assert(a != id) by {
                    if a == id {
                        assert(old_names.dom().contains(b));
                    }
                }
                assert(old_names.dom().contains(a) && old_names.dom().contains(b));
            }
        }
    } else {
        assert(ids.take(0) =~= Seq::<u32>::empty());
    }
}

/// Welding as a whole. A representative stands for itself; every node is within the
/// radius of the one it goes by, so that no chain exceeds it; that one is not numbered
/// higher; and two representatives in neighbouring cells are farther apart.
pub proof fn welding_is_local(
    states: Seq<Welding>,
    ids: Seq<u32>,
    cells: spec_fn(u32) -> Cell,
    distance: spec_fn(u32, u32) -> Scalar,
    radius: Scalar,
)
    requires
        weld_run(states, ids, cells, distance, radius),
        ascending(ids),
        ids.len() <= usize::MAX,
    ensures
        names_hold(states.last().names(), ids, distance, radius),
        representatives_apart(states.last().names(), cells, distance, radius),
{
    run_holds(states, ids, cells, distance, radius, ids.len() as int);
    assert(ids.take(ids.len() as int) =~= ids);
}

proof fn same_name(
    reps: Seq<Representative>,
    id: u32,
    cell: Cell,
    first: (Seq<usize>, Seq<Scalar>, int),
    second: (Seq<usize>, Seq<Scalar>, int),
    distance: spec_fn(u32, u32) -> Scalar,
    radius: Scalar,
)
    requires
        reps.len() <= usize::MAX,
        all_neighbours(first.0, reps, cell),
        all_neighbours(second.0, reps, cell),
        first.1.len() == first.0.len(),
        second.1.len() == second.0.len(),
        forall|m: int| 0 <= m < first.0.len() ==> #[trigger] first.1[m] == distance(id, reps[first.0[m] as int].id),
        forall|m: int| 0 <= m < second.0.len() ==> #[trigger] second.1[m] == distance(id, reps[second.0[m] as int].id),
        closest(reps, first.0, first.1, radius, first.2),
    ensures
        !none_close(second.1, radius),
        closest(reps, second.0, second.1, radius, second.2) ==> reps[first.0[first.2] as int].id
            == reps[second.0[second.2] as int].id,
{
    let a = first.0[first.2];
    assert(first.0.contains(a));
    assert(second.0.contains(a));
    let n = choose|n: int| 0 <= n < second.0.len() && second.0[n] == a;
    assert(second.1[n] == first.1[first.2]);
    assert(second.1[n].le(radius));
    if closest(reps, second.0, second.1, radius, second.2) {
        let b = second.0[second.2];
        assert(second.0.contains(b));
        assert(first.0.contains(b));
        let m = choose|m: int| 0 <= m < first.0.len() && first.0[m] == b;
        assert(first.1[m] == second.1[second.2]);
        assert(first.1[m].le(radius));
        assert(second.1[n].le(radius));
    }
}

/// Welding depends on which nodes there are and where, not on how they were listed:
/// two runs over the same nodes give the same names.
pub proof fn welding_is_determined(
    one: Seq<Welding>,
    two: Seq<Welding>,
    ids: Seq<u32>,
    others: Seq<u32>,
    cells: spec_fn(u32) -> Cell,
    distance: spec_fn(u32, u32) -> Scalar,
    radius: Scalar,
)
    requires
        weld_run(one, ids, cells, distance, radius),
        weld_run(two, others, cells, distance, radius),
        ascending(ids),
        ascending(others),
        forall|id: u32| #[trigger] ids.contains(id) <==> others.contains(id),
        ids.len() <= usize::MAX,
    ensures
        one.last().names() == two.last().names(),
{
    ascending_determined(ids, others);
    runs_agree(one, two, ids, cells, distance, radius, ids.len() as int);
}

proof fn runs_agree(
    one: Seq<Welding>,
    two: Seq<Welding>,
    ids: Seq<u32>,
    cells: spec_fn(u32) -> Cell,
    distance: spec_fn(u32, u32) -> Scalar,
    radius: Scalar,
    k: int,
)
    requires
        weld_run(one, ids, cells, distance, radius),
        weld_run(two, ids, cells, distance, radius),
        ids.len() <= usize::MAX,
        0 <= k <= ids.len(),
    ensures
        one[k].names() == two[k].names(),
        one[k].representatives() == two[k].representatives(),
        one[k].representatives().len() <= k,
    decreases k,
{
    if k > 0 {
        runs_agree(one, two, ids, cells, distance, radius, k - 1);
        let id = ids[k - 1];
        let cell = cells(id);
        let (a, b) = (one[k - 1], two[k - 1]);
        assert(named_next(one[k - 1], one[k - 1 + 1], ids[k - 1], cells, distance, radius));
        assert(named_next(two[k - 1], two[k - 1 + 1], ids[k - 1], cells, distance, radius));
        let (f, d, n) = choose|f: Seq<usize>, d: Seq<Scalar>, n: u32| #[trigger]
            welded(a, one[k], id, cell, f, d, radius, n) && measured_around(a, id, cell, f, d, distance);
        let (g, e, m) = choose|f: Seq<usize>, d: Seq<Scalar>, n: u32| #[trigger]
            welded(b, two[k], id, cell, f, d, radius, n) && measured_around(b, id, cell, f, d, distance);
        let reps = a.representatives();
        if !none_close(d, radius) {
            let x = choose|x: int| #[trigger] closest(reps, f, d, radius, x) && n == reps[f[x] as int].id;
            same_name(reps, id, cell, (f, d, x), (g, e, 0), distance, radius);
            let y = choose|y: int| #[trigger] closest(reps, g, e, radius, y) && m == reps[g[y] as int].id;
            same_name(reps, id, cell, (f, d, x), (g, e, y), distance, radius);
        } else if !none_close(e, radius) {
            let y = choose|y: int| #[trigger] closest(reps, g, e, radius, y) && m == reps[g[y] as int].id;
            same_name(reps, id, cell, (g, e, y), (f, d, 0), distance, radius);
        }
    }
}

/// A node is counted as welded when it goes by another number.
pub proof fn welded_nodes_are_counted(names: Map<u32, u32>, ids: Seq<u32>, upto: int)
    requires
        0 <= upto <= ids.len(),
    ensures
        renamed_before(names, ids, upto) == ids.take(upto).filter(
            |id: u32| names.dom().contains(id) && names[id] != id,
        ).len(),
    decreases upto,
{
    reveal(Seq::filter);
    if upto > 0 {
        welded_nodes_are_counted(names, ids, upto - 1);
        assert(ids.take(upto).drop_last() =~= ids.take(upto - 1));
    }
}

/// The line a point is drawn to is nearer than the limit, and no other line is nearer.
pub proof fn nearest_line_is_nearest(distances: Seq<Scalar>, limit: Scalar, k: int, m: int)
    requires
        nearest_line(distances, limit, k),
        0 <= m < distances.len(),
    ensures
        distances[k].lt(limit),
        !distances[m].lt(distances[k]),
        nearest_line(distances, limit, m) ==> m == k,
{
    if m < k {
        assert(distances[m].lt(limit) ==> distances[k].lt(distances[m]));
    } else if m > k {
        assert(!distances[m].lt(distances[k]));
    }
    if nearest_line(distances, limit, m) && m < k {
        assert(!distances[k].lt(distances[m]));
    }
    if nearest_line(distances, limit, m) && k < m {
        assert(distances[k].lt(limit));
    }
}

/// Exactly the points that begin a long edge are kept, in their order.
pub proof fn points_of_long_edges_stay(lengths: Seq<Scalar>, shortest: Scalar, upto: int, k: usize)
    requires
        0 <= upto <= lengths.len(),
        upto <= usize::MAX,
    ensures
        long_edges(lengths, shortest, upto).contains(k) <==> k < upto && shortest.le(lengths[k as int]),
        ascending_indices(long_edges(lengths, shortest, upto)),
        forall|m: int| 0 <= m < long_edges(lengths, shortest, upto).len() ==> #[trigger] long_edges(lengths, shortest, upto)[m] < upto,
    decreases upto,
{
    if upto > 0 {
        points_of_long_edges_stay(lengths, shortest, upto - 1, k);
        pushed_contains(long_edges(lengths, shortest, upto - 1), (upto - 1) as usize, k);
    }
}

/// A point stays in a contour exactly when both its sides are long enough and the contour
/// turns there.
pub proof fn points_of_turns_stay(corners: Seq<Corner>, shortest: Scalar, straight: Scalar, upto: int, k: usize)
    requires
        0 <= upto <= corners.len(),
        upto <= usize::MAX,
    ensures
        turning(corners, shortest, straight, upto).contains(k) <==> k < upto && !corners[k as int].length_before.lt(shortest)
            && !corners[k as int].length_after.lt(shortest) && !straight.lt(corners[k as int].turn),
        ascending_indices(turning(corners, shortest, straight, upto)),
        forall|m: int|
            0 <= m < turning(corners, shortest, straight, upto).len() ==> #[trigger] turning(corners, shortest, straight, upto)[m]
                < upto,
    decreases upto,
{
    if upto > 0 {
        points_of_turns_stay(corners, shortest, straight, upto - 1, k);
        pushed_contains(turning(corners, shortest, straight, upto - 1), (upto - 1) as usize, k);
    }
}

/// Two cells are neighbours when no coordinate differs by more than one.
pub proof fn neighbours_differ_by_one(a: Cell, b: Cell)
    ensures
        neighbouring(a, b) <==> forall|d: int| 0 <= d < 3 ==> -1 <= #[trigger] a[d] - b[d] <= 1,
        neighbouring(a, b) == neighbouring(b, a),
{
    if neighbouring(a, b) {
        assert forall|d: int| 0 <= d < 3 implies -1 <= #[trigger] a[d] - b[d] <= 1 by {
            assert(d == 0 || d == 1 || d == 2);
        }
    }
    if forall|d: int| 0 <= d < 3 ==> -1 <= #[trigger] a[d] - b[d] <= 1 {
        assert(-1 <= a[0] - b[0] <= 1);
        assert(-1 <= a[1] - b[1] <= 1);
        assert(-1 <= a[2] - b[2] <= 1);
    }
}

} // verus!
