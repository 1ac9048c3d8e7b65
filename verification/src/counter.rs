use vstd::prelude::*;
use vstd::std_specs::hash::obeys_key_model;
use vstd::std_specs::iter::IteratorSpec;
use std::collections::HashMap;
use std::hash::Hash;

verus! {

/// A table of frequencies for keys of any kind that a hash map can hold.
pub struct Counter<T> {
    counter: HashMap<T, u32>,
}

impl<T: Eq + Hash + Copy> Counter<T> {
    /// The frequency recorded for `item`; 0 for one never met.
    pub closed spec fn count(&self, item: T) -> u32 {
        if self.counter@.contains_key(item) {
            self.counter@[item]
        } else {
            0
        }
    }

    /// An empty table.
    pub fn new() -> (table: Counter<T>)
        requires
            obeys_key_model::<T>(),
        ensures
            forall|item: T| #[trigger] table.count(item) == 0,
    {
        broadcast use vstd::std_specs::hash::group_hash_axioms;

        Counter { counter: HashMap::new() }
    }

    /// Adds `count` to the frequency of `item`.
    pub fn add(&mut self, item: &T, count: u32)
        requires
            obeys_key_model::<T>(),
            old(self).count(*item) + count <= u32::MAX,
        ensures
            forall|other: T|
                #[trigger] final(self).count(other) == if other == *item {
                    (old(self).count(*item) + count) as u32
                } else {
                    old(self).count(other)
                },
    {
        broadcast use vstd::std_specs::hash::group_hash_axioms;

        let before = match self.counter.get(item) {
            Some(n) => *n,
            None => 0,
        };
        self.counter.insert(*item, before + count);
    }

    /// The frequency of `item`; 0 for one never met.
    pub fn get(&self, item: &T) -> (count: u32)
        requires
            obeys_key_model::<T>(),
        ensures
            count == self.count(*item),
    {
        broadcast use vstd::std_specs::hash::group_hash_axioms;

        match self.counter.get(item) {
            Some(count) => *count,
            None => 0,
        }
    }

    /// The keys whose frequency is above `min_count`, each once, in no
    /// order that could be told beforehand.
    pub fn items_with_count_at_least(&self, min_count: u32) -> (items: Vec<T>)
        requires
            obeys_key_model::<T>(),
        ensures
            items@.no_duplicates(),
            forall|item: T| items@.contains(item) <==> self.count(item) > min_count,
    {
        broadcast use vstd::std_specs::hash::group_hash_axioms;

        let mut items: Vec<T> = Vec::new();
        let keys = self.counter.keys();
        let ghost all = keys.remaining().unref();
        proof {
            vstd::std_specs::hash::axiom_spec_keys_iter(&self.counter);
            assert(all.to_set() == self.counter@.dom());
        }
        for key in it: keys
            invariant
                obeys_key_model::<T>(),
                it.seq().unref() == all,
                all.to_set() == self.counter@.dom(),
                all.no_duplicates(),
                items@.no_duplicates(),
                forall|item: T|
                    items@.contains(item) <==> (all.take(it.index() as int).contains(item)
                        && self.count(item) > min_count),
        {
            let ghost before = items@;
            let ghost upto = all.take(it.index() as int);
            let ghost next = all.take(it.index() + 1);
            proof {
                assert(all[it.index() as int] == *key);
                assert(next =~= upto.push(*key));
                assert(!upto.contains(*key)) by {
                    if upto.contains(*key) {
                        let k = choose|k: int| 0 <= k < upto.len() && upto[k] == *key;
                        assert(all[k] == all[it.index() as int]);
                    }
                }
            }
            if self.get(key) > min_count {
                items.push(*key);
            }
            proof {
                assert forall|item: T|
                    items@.contains(item) <==> (next.contains(item) && self.count(item)
                        > min_count) by {
                    if before.contains(item) {
                        let k = choose|k: int| 0 <= k < before.len() && before[k] == item;
                        assert(items@[k] == item);
                        assert(upto.contains(item));
                    }
                    if upto.contains(item) {
                        let k = choose|k: int| 0 <= k < upto.len() && upto[k] == item;
                        assert(next[k] == item);
                    }
                    if item == *key {
                        assert(next[next.len() - 1] == item);
                        if self.count(item) > min_count {
                            assert(items@[items@.len() - 1] == item);
                        }
                    }
                    if items@.contains(item) {
                        let k = choose|k: int| 0 <= k < items@.len() && items@[k] == item;
                        if k < before.len() {
                            assert(before[k] == item);
                        }
                    }
                    if next.contains(item) {
                        let k = choose|k: int| 0 <= k < next.len() && next[k] == item;
                        if k < upto.len() {
                            assert(upto[k] == item);
                        }
                    }
                }
                assert forall|a: int, b: int|
                    0 <= a < items@.len() && 0 <= b < items@.len() && a != b implies items@[a]
                    != items@[b] by {
                    if a < before.len() && b < before.len() {
                        assert(items@[a] == before[a] && items@[b] == before[b]);
                    } else if a < before.len() {
                        assert(before.contains(before[a]));
                    } else {
                        assert(before.contains(before[b]));
                    }
                }
            }
        }
        proof {
            assert(all.take(all.len() as int) =~= all);
            assert forall|item: T| items@.contains(item) <==> self.count(item) > min_count by {
                if self.count(item) > min_count {
                    assert(self.counter@.dom().contains(item));
                    assert(all.to_set().contains(item));
                }
            }
        }
        items
    }
}

} // verus!
