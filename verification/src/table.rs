//! A hash table from numbers to numbers.
use vstd::prelude::*;

verus! {

/// Numbers by number. The entries come in no particular order.
#[verifier::external_body]
#[derive(Debug)]
pub struct HashTable {
    entries: hashbrown::HashMap<u64, usize>,
}

/// What a hash table holds for each key.
pub uninterp spec fn entries_of(table: HashTable) -> Map<u64, usize>;

/// `hashbrown::HashMap::new`: a map that holds nothing.
#[verifier::external_body]
fn empty_table() -> (r: HashTable)
    ensures
        entries_of(r).dom() == Set::<u64>::empty(),
{
    HashTable { entries: hashbrown::HashMap::new() }
}

/// `hashbrown::HashMap::insert`: the key then holds the value; an earlier
/// value of the key is replaced, all other keys keep theirs.
#[verifier::external_body]
fn insert_entry(table: &mut HashTable, key: u64, value: usize)
    ensures
        entries_of(*final(table)) == entries_of(*old(table)).insert(key, value),
{
    table.entries.insert(key, value);
}

/// `hashbrown::HashMap::get`: the value held for the key, `None` where the map
/// does not hold the key.
#[verifier::external_body]
fn entry_at(table: &HashTable, key: u64) -> (r: Option<usize>)
    ensures
        match r {
            Some(value) => entries_of(*table).dom().contains(key) && entries_of(*table)[key] == value,
            None => !entries_of(*table).dom().contains(key),
        },
{
    table.entries.get(&key).copied()
}

/// `hashbrown::HashMap::keys`: every key of the map, each once. The order in
/// which they come is left open.
#[verifier::external_body]
fn keys_of(table: &HashTable) -> (r: Vec<u64>)
    ensures
        r@.no_duplicates(),
        forall|key: u64| #[trigger] r@.contains(key) <==> entries_of(*table).dom().contains(key),
{
    table.entries.keys().copied().collect()
}

impl View for HashTable {
    type V = Map<u64, usize>;

    open spec fn view(&self) -> Map<u64, usize> {
        entries_of(*self)
    }
}

impl HashTable {
    pub fn new() -> (r: HashTable)
        ensures
            r@ == Map::<u64, usize>::empty(),
    {
        let r = empty_table();
        assert(r@ =~= Map::<u64, usize>::empty());
        r
    }

    pub fn insert(&mut self, key: u64, value: usize)
        ensures
            final(self)@ == old(self)@.insert(key, value),
    {
        insert_entry(self, key, value);
    }

    pub fn get(&self, key: u64) -> (r: Option<usize>)
        ensures
            match r {
                Some(value) => self@.dom().contains(key) && self@[key] == value,
                None => !self@.dom().contains(key),
            },
    {
        entry_at(self, key)
    }

    pub fn contains_key(&self, key: u64) -> (r: bool)
        ensures
            r == self@.dom().contains(key),
    {
        match self.get(key) {
            Some(_) => true,
            None => false,
        }
    }

    pub fn keys(&self) -> (r: Vec<u64>)
        ensures
            r@.no_duplicates(),
            forall|key: u64| #[trigger] r@.contains(key) <==> self@.dom().contains(key),
    {
        keys_of(self)
    }
}

} // verus!
