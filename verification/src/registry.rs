//! A map from identifiers to indices.
use vstd::prelude::*;
use crate::table::HashTable;

verus! {

/// Finds the index that was registered under an identifier.
#[derive(Debug)]
pub struct Registry {
    entries: std::collections::BTreeMap<u64, usize>,
}

impl View for Registry {
    type V = Map<u64, usize>;

    closed spec fn view(&self) -> Map<u64, usize> {
        self.entries@
    }
}

impl Registry {
    pub fn new() -> (r: Registry)
        ensures
            r@ == Map::<u64, usize>::empty(),
    {
        Registry { entries: std::collections::BTreeMap::new() }
    }

    pub fn get(&self, id: u64) -> (r: Option<usize>)
        ensures
            match r {
                Some(index) => self@.dom().contains(id) && self@[id] == index,
                None => !self@.dom().contains(id),
            },
    {
        broadcast use vstd::std_specs::btree::group_btree_axioms;

        match self.entries.get(&id) {
            Some(index) => Some(*index),
            None => None,
        }
    }

    pub fn contains(&self, id: u64) -> (r: bool)
        ensures
            r == self@.dom().contains(id),
    {
        match self.get(id) {
            Some(_) => true,
            None => false,
        }
    }

    pub fn insert(&mut self, id: u64, index: usize)
        ensures
            final(self)@ == old(self)@.insert(id, index),
    {
        broadcast use vstd::std_specs::btree::group_btree_axioms;

        self.entries.insert(id, index);
    }
}

/// Lists of indices by identifier.
#[derive(Debug)]
pub struct Lists {
    slots: HashTable,
    lists: Vec<Vec<usize>>,
    nothing: Vec<usize>,
}

impl Lists {
    pub closed spec fn well_formed(&self) -> bool {
        &&& self.nothing@.len() == 0
        &&& forall|x: u64| #[trigger]
            self.slots@.dom().contains(x) ==> self.slots@[x] < self.lists@.len()
        &&& forall|x: u64, y: u64| #[trigger]
            self.slots@.dom().contains(x) && #[trigger] self.slots@.dom().contains(y) && x != y
                ==> self.slots@[x] != self.slots@[y]
    }

    /// What is listed under an identifier; nothing where nothing was added.
    pub closed spec fn at(&self, id: u64) -> Seq<usize> {
        if self.slots@.dom().contains(id) {
            self.lists@[self.slots@[id] as int]@
        } else {
            Seq::empty()
        }
    }

    pub fn new() -> (r: Lists)
        ensures
            r.well_formed(),
            forall|id: u64| #[trigger] r.at(id) == Seq::<usize>::empty(),
    {
        Lists { slots: HashTable::new(), lists: Vec::new(), nothing: Vec::new() }
    }

    pub fn push(&mut self, id: u64, value: usize)
        requires
            old(self).well_formed(),
        ensures
            final(self).well_formed(),
            final(self).at(id) == old(self).at(id).push(value),
            forall|x: u64| x != id ==> #[trigger] final(self).at(x) == old(self).at(x),
    {
        match self.slots.get(id) {
            Some(slot) => {
                self.lists[slot].push(value);
            },
            None => {
                let slot: usize = self.lists.len();
                let mut list: Vec<usize> = Vec::new();
                list.push(value);
                self.lists.push(list);
                self.slots.insert(id, slot);
                assert(self.lists@[slot as int]@ =~= old(self).at(id).push(value));
            },
        }
    }

    pub fn get(&self, id: u64) -> (r: &Vec<usize>)
        requires
            self.well_formed(),
        ensures
            r@ == self.at(id),
    {
        match self.slots.get(id) {
            Some(slot) => &self.lists[slot],
            None => {
                assert(self.nothing@ =~= Seq::<usize>::empty());
                &self.nothing
            },
        }
    }
}

} // verus!
