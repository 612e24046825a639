//! The in-memory key-value store that commands act on.

use vstd::prelude::*;
use vstd::hash_map::StringHashMap;
use vstd::slice::slice_to_vec;

verus! {

/// The store: each key, a text, maps to a value of bytes.
pub struct Db {
    entries: StringHashMap<Vec<u8>>,
}

impl View for Db {
    type V = Map<Seq<char>, Seq<u8>>;

    closed spec fn view(&self) -> Map<Seq<char>, Seq<u8>> {
        self.entries@.map_values(|v: Vec<u8>| v@)
    }
}

/// Creates an empty store.
pub fn new() -> (db: Db)
    ensures
        db@ == Map::<Seq<char>, Seq<u8>>::empty(),
{
    let db = Db { entries: StringHashMap::new() };
    assert(db@ =~= Map::<Seq<char>, Seq<u8>>::empty());
    db
}

impl Db {
    /// A copy of the value stored under `key`, if there is one.
    pub fn get(&self, key: &str) -> (res: Option<Vec<u8>>)
        ensures
            match res {
                Some(v) => self@.contains_key(key@) && v@ == self@[key@],
                None => !self@.contains_key(key@),
            },
    {
        match self.entries.get(key) {
            Some(v) => Some(slice_to_vec(v.as_slice())),
            None => None,
        }
    }

    /// Stores `value` under `key`, and returns the value it replaces, if any.
    pub fn set(&mut self, key: String, value: Vec<u8>) -> (res: Option<Vec<u8>>)
        ensures
            final(self)@ == old(self)@.insert(key@, value@),
            match res {
                Some(v) => old(self)@.contains_key(key@) && v@ == old(self)@[key@],
                None => !old(self)@.contains_key(key@),
            },
    {
        let previous = self.get(key.as_str());
        let ghost k = key@;
        let ghost v = value@;
        self.entries.insert(key, value);
        assert(self@ =~= old(self)@.insert(k, v));
        previous
    }

    /// Removes `key`, and tells whether it was there.
    pub fn del(&mut self, key: &str) -> (res: bool)
        ensures
            res == old(self)@.contains_key(key@),
            final(self)@ == old(self)@.remove(key@),
    {
        let present = self.entries.contains_key(key);
        self.entries.remove(key);
        assert(self@ =~= old(self)@.remove(key@));
        present
    }

    /// Tells whether `key` holds a value.
    pub fn contains_key(&self, key: &str) -> (res: bool)
        ensures
            res == self@.contains_key(key@),
    {
        self.entries.contains_key(key)
    }
}

} // verus!
