//! Measured durations, by the name of the operation they were measured on.

use vstd::hash_map::StringHashMap;
use vstd::prelude::*;

verus! {

/// A table from operation names to measured durations.
pub struct ProfileTable {
    durations: StringHashMap<u64>,
}

impl View for ProfileTable {
    type V = Map<Seq<char>, u64>;

    closed spec fn view(&self) -> Map<Seq<char>, u64> {
        self.durations@
    }
}

impl ProfileTable {
    /// A table without entries.
    pub fn new() -> (table: ProfileTable)
        ensures
            table@ == Map::<Seq<char>, u64>::empty(),
    {
        ProfileTable { durations: StringHashMap::new() }
    }

    /// Records `duration` for `name`, in place of what the table held for
    /// that name before.
    pub fn insert(&mut self, name: String, duration: u64)
        ensures
            final(self)@ == old(self)@.insert(name@, duration),
    {
        self.durations.insert(name, duration);
    }

    /// The duration recorded for `name`, if there is one.
    pub fn get(&self, name: &str) -> (duration: Option<u64>)
        ensures
            duration == (if self@.contains_key(name@) {
                Some(self@[name@])
            } else {
                None
            }),
    {
        match self.durations.get(name) {
            Some(d) => Some(*d),
            None => None,
        }
    }

    /// Number of names with a recorded duration.
    pub fn len(&self) -> (n: usize)
        ensures
            n == self@.len(),
    {
        proof {
            broadcast use vstd::hash_map::axiom_string_hash_map_spec_len;
        }
        self.durations.len()
    }
}

} // verus!
