use vstd::prelude::*;
use std::cmp::Ordering;
use crate::item::Item;

verus! {

/// A dense table of frequencies, indexed by item identifier.
pub struct ItemCounter {
    counter: Vec<u32>,
}

/// `s`, filled up with zeros to the length `n` where it is shorter.
pub open spec fn zero_extended(s: Seq<u32>, n: int) -> Seq<u32> {
    if s.len() >= n {
        s
    } else {
        s + Seq::new((n - s.len()) as nat, |i: int| 0u32)
    }
}

/// The entry of `s` for `item`, 0 where the table does not reach so far.
pub open spec fn count_in(s: Seq<u32>, item: Item) -> u32 {
    if item.id < s.len() {
        s[item.id as int]
    } else {
        0
    }
}

impl View for ItemCounter {
    type V = Seq<u32>;

    closed spec fn view(&self) -> Seq<u32> {
        self.counter@
    }
}

impl ItemCounter {
    /// The frequency recorded for `item`.
    pub open spec fn count(&self, item: Item) -> u32 {
        count_in(self@, item)
    }

    /// Whether `a` comes before `b` when sorting by falling frequency, the
    /// larger identifier first among equals.
    pub open spec fn precedes(&self, a: Item, b: Item) -> bool {
        self.count(a) > self.count(b) || (self.count(a) == self.count(b) && a.id > b.id)
    }

    /// An empty table.
    pub fn new() -> (counter: ItemCounter)
        ensures
            counter@ == Seq::<u32>::empty(),
    {
        ItemCounter { counter: Vec::new() }
    }

    fn reach(&mut self, index: usize)
        ensures
            final(self)@ == zero_extended(old(self)@, index + 1),
    {
        while self.counter.len() <= index
            invariant
                self.counter@.len() <= index + 1 || self.counter@ == old(self)@,
                self.counter@ == zero_extended(old(self)@, self.counter@.len() as int),
            decreases index + 1 - self.counter.len(),
        {
            self.counter.push(0);
        }
    }

    /// Adds `count` to the frequency of `item`.
    pub fn add(&mut self, item: &Item, count: u32)
        requires
            old(self).count(*item) + count <= u32::MAX,
        ensures
            final(self)@ == zero_extended(old(self)@, item.id + 1).update(
                item.id as int,
                (old(self).count(*item) + count) as u32,
            ),
            forall|other: Item|
                #[trigger] final(self).count(other) == if other == *item {
                    (old(self).count(*item) + count) as u32
                } else {
                    old(self).count(other)
                },
    {
        let index = item.as_index();
        self.reach(index);
        let sum = self.counter[index] + count;
        self.counter.set(index, sum);
    }

    /// The frequency of `item`; 0 for one never seen.
    pub fn get(&self, item: &Item) -> (count: u32)
        ensures
            count == self.count(*item),
    {
        let index = item.as_index();
        if index >= self.counter.len() {
            0
        } else {
            self.counter[index]
        }
    }

    /// Sets the frequency of `item`.
    pub fn set(&mut self, item: &Item, count: u32)
        ensures
            final(self)@ == zero_extended(old(self)@, item.id + 1).update(item.id as int, count),
            forall|other: Item|
                #[trigger] final(self).count(other) == if other == *item {
                    count
                } else {
                    old(self).count(other)
                },
    {
        let index = item.as_index();
        self.reach(index);
        self.counter.set(index, count);
    }

    /// Every item but the null item whose frequency is at least `min_count`,
    /// by rising identifier.
    pub fn items_with_count_at_least(&self, min_count: u32) -> (items: Vec<Item>)
        ensures
            crate::vec_sets::ascending(items@),
            forall|item: Item|
                items@.contains(item) <==> (1 <= item.id < self@.len() && self@[item.id as int]
                    >= min_count),
    {
        let mut v: Vec<Item> = Vec::new();
        let mut i: usize = 1;
        while i < self.counter.len() && i <= 0xffff_ffff
            invariant
                1 <= i,
                crate::vec_sets::ascending(v@),
                forall|k: int| 0 <= k < v.len() ==> (#[trigger] v[k]).id < i,
                forall|item: Item|
                    v@.contains(item) <==> (1 <= item.id < i && item.id < self.counter@.len()
                        && self.counter@[item.id as int] >= min_count),
            decreases self.counter.len() - i,
        {
            let ghost before = v@;
            if self.counter[i] >= min_count {
                v.push(Item::with_id(i as u32));
                proof {
                    let added = v@.last();
                    assert(added.id == i);
                    assert forall|item: Item|
                        v@.contains(item) <==> (1 <= item.id < i + 1 && item.id
                            < self.counter@.len() && self.counter@[item.id as int]
                            >= min_count) by {
                        if before.contains(item) {
                            let k = choose|k: int| 0 <= k < before.len() && before[k] == item;
                            assert(v@[k] == item);
                        }
                        if item.id == i {
                            assert(v@[v.len() - 1] == item);
                        }
                        if v@.contains(item) {
                            let k = choose|k: int| 0 <= k < v.len() && v@[k] == item;
                            if k < before.len() {
                                assert(before[k] == item);
                            }
                        }
                    }
                }
            } else {
                proof {
                    assert forall|item: Item|
                        v@.contains(item) <==> (1 <= item.id < i + 1 && item.id
                            < self.counter@.len() && self.counter@[item.id as int]
                            >= min_count) by {
                        assert(v@.contains(item) <==> before.contains(item));
                    }
                }
            }
            i += 1;
        }
        v
    }

    /// Whether `s` runs by falling frequency, the larger identifier first
    /// among equals.
    pub open spec fn sorted_descending(&self, s: Seq<Item>) -> bool {
        forall|i: int, j: int| 0 <= i < j < s.len() ==> !self.precedes(s[j], s[i])
    }

    /// How `a` stands to `b` when sorting by falling frequency: `Less` where
    /// `a` comes first.
    pub fn descending_order(&self, a: &Item, b: &Item) -> (order: Ordering)
        ensures
            (order == Ordering::Less) == self.precedes(*a, *b),
            (order == Ordering::Greater) == self.precedes(*b, *a),
            (order == Ordering::Equal) == (*a == *b),
    {
        let count_a = self.get(a);
        let count_b = self.get(b);
        if count_a == count_b {
            if b.id < a.id {
                Ordering::Less
            } else if a.id < b.id {
                Ordering::Greater
            } else {
                Ordering::Equal
            }
        } else if count_b < count_a {
            Ordering::Less
        } else {
            Ordering::Greater
        }
    }

    /// Sorts `v` by falling frequency, the larger identifier first among
    /// items of equal frequency.
    pub fn sort_descending(&self, v: &mut Vec<Item>)
        ensures
            final(v)@.to_multiset() == old(v)@.to_multiset(),
            self.sorted_descending(final(v)@),
    {
        sort_by_frequency(self, v);
    }

    /// Replaces the whole table by that of `other`.
    pub fn take(&mut self, other: ItemCounter)
        ensures
            final(self)@ == other@,
    {
        self.counter = other.counter;
    }
}

/// `slice::sort_by` of std, with [`ItemCounter::descending_order`] as the
/// order. Trusted: the call leaves the same items, each as often as before,
/// and no item stands behind one that the order puts after it.
#[verifier::external_body]
fn sort_by_frequency(counter: &ItemCounter, v: &mut Vec<Item>)
    ensures
        final(v)@.to_multiset() == old(v)@.to_multiset(),
        counter.sorted_descending(final(v)@),
{
    v.sort_by(|a, b| counter.descending_order(a, b));
}

} // verus!
