use vstd::prelude::*;
use std::collections::HashMap;
use crate::item::Item;

verus! {

/// A table of frequencies that holds an entry only for the items it has
/// met.
pub struct ItemCount {
    counter: HashMap<u32, u32>,
}

impl ItemCount {
    /// The frequency recorded for `item`; 0 for one never met.
    pub closed spec fn count(&self, item: Item) -> u32 {
        if self.counter@.contains_key(item.id) {
            self.counter@[item.id]
        } else {
            0
        }
    }

    /// An empty table.
    pub fn new() -> (table: ItemCount)
        ensures
            forall|item: Item| #[trigger] table.count(item) == 0,
    {
        ItemCount { counter: HashMap::new() }
    }

    /// Adds `count` to the frequency of `item`.
    pub fn add(&mut self, item: &Item, count: u32)
        requires
            old(self).count(*item) + count <= u32::MAX,
        ensures
            forall|other: Item|
                #[trigger] final(self).count(other) == if other == *item {
                    (old(self).count(*item) + count) as u32
                } else {
                    old(self).count(other)
                },
    {
        broadcast use vstd::std_specs::hash::group_hash_axioms;

        let before = match self.counter.get(&item.id) {
            Some(n) => *n,
            None => 0,
        };
        self.counter.insert(item.id, before + count);
        proof {
            assert forall|other: Item|
                #[trigger] self.count(other) == if other == *item {
                    (old(self).count(*item) + count) as u32
                } else {
                    old(self).count(other)
                } by {
                if other != *item {
                    assert(other.id != item.id);
                }
            }
        }
    }

    /// The frequency of `item`; 0 for one never met.
    pub fn get(&self, item: &Item) -> (count: u32)
        ensures
            count == self.count(*item),
    {
        broadcast use vstd::std_specs::hash::group_hash_axioms;

        match self.counter.get(&item.id) {
            Some(count) => *count,
            None => 0,
        }
    }
}

} // verus!
