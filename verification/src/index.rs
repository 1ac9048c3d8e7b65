use vstd::prelude::*;
use crate::dataset::has_all;
use crate::item::Item;
use crate::ratio::Ratio;

verus! {

/// For each item, the list of the transactions that hold it. A transaction
/// is known by its number, counted from 0 in the order of insertion. The
/// view is the list of the transactions.
pub struct Index {
    index: Vec<Vec<usize>>,
    transaction_count: usize,
    held: Ghost<Seq<Seq<Item>>>,
}

/// The numbers of the transactions that hold `item`, rising.
pub open spec fn holders_of(transactions: Seq<Seq<Item>>, item: Item) -> Seq<usize>
    decreases transactions.len(),
{
    if transactions.len() == 0 {
        Seq::empty()
    } else if transactions.last().contains(item) {
        holders_of(transactions.drop_last(), item).push((transactions.len() - 1) as usize)
    } else {
        holders_of(transactions.drop_last(), item)
    }
}

/// How many transactions hold every item of `items`.
pub open spec fn holding(transactions: Seq<Seq<Item>>, items: Seq<Item>) -> nat
    decreases transactions.len(),
{
    if transactions.len() == 0 {
        0
    } else if has_all(items)(transactions.last()) {
        holding(transactions.drop_last(), items) + 1
    } else {
        holding(transactions.drop_last(), items)
    }
}

/// Of the first `k` transactions of `list`, how many hold every item of
/// `items`.
spec fn matched(transactions: Seq<Seq<Item>>, items: Seq<Item>, list: Seq<usize>, k: int) -> nat
    decreases k,
{
    if k <= 0 {
        0
    } else if has_all(items)(transactions[list[k - 1] as int]) {
        matched(transactions, items, list, k - 1) + 1
    } else {
        matched(transactions, items, list, k - 1)
    }
}

proof fn lemma_holders(transactions: Seq<Seq<Item>>, item: Item)
    requires
        transactions.len() <= usize::MAX,
    ensures
        holders_of(transactions, item).len() <= transactions.len(),
        forall|k: int|
            0 <= k < holders_of(transactions, item).len() ==> (#[trigger] holders_of(
                transactions,
                item,
            )[k]) < transactions.len() && transactions[holders_of(transactions, item)[k] as int].contains(
                item,
            ),
        forall|a: int, b: int|
            0 <= a < b < holders_of(transactions, item).len() ==> holders_of(transactions, item)[a]
                < holders_of(transactions, item)[b],
        forall|t: int|
            0 <= t < transactions.len() && transactions[t].contains(item) ==> holders_of(
                transactions,
                item,
            ).contains(t as usize),
    decreases transactions.len(),
{
    if transactions.len() > 0 {
        let rest = transactions.drop_last();
        lemma_holders(rest, item);
        let h0 = holders_of(rest, item);
        let h = holders_of(transactions, item);
        assert forall|k: int| 0 <= k < h.len() implies (#[trigger] h[k]) < transactions.len()
            && transactions[h[k] as int].contains(item) by {
            if k < h0.len() {
                assert(h[k] == h0[k]);
                assert(rest[h0[k] as int] == transactions[h0[k] as int]);
            }
        }
        assert forall|a: int, b: int| 0 <= a < b < h.len() implies h[a] < h[b] by {
            if b < h0.len() {
                assert(h[a] == h0[a] && h[b] == h0[b]);
            } else {
                assert(h[a] == h0[a]);
            }
        }
        assert forall|t: int|
            0 <= t < transactions.len() && transactions[t].contains(item) implies h.contains(
            t as usize,
        ) by {
            if t < rest.len() {
                assert(rest[t] == transactions[t]);
                assert(h0.contains(t as usize));
                let k = choose|k: int| 0 <= k < h0.len() && h0[k] == t as usize;
                assert(h[k] == t as usize);
            } else {
                assert(h[h.len() - 1] == t as usize);
            }
        }
    }
}

proof fn lemma_matched_same(
    transactions: Seq<Seq<Item>>,
    more: Seq<Seq<Item>>,
    items: Seq<Item>,
    list: Seq<usize>,
    longer: Seq<usize>,
    k: int,
)
    requires
        0 <= k <= list.len(),
        list.len() <= longer.len(),
        forall|j: int| 0 <= j < list.len() ==> list[j] == longer[j],
        forall|j: int| 0 <= j < list.len() ==> (#[trigger] list[j]) < transactions.len(),
        transactions.len() <= more.len(),
        forall|t: int| 0 <= t < transactions.len() ==> transactions[t] == more[t],
    ensures
        matched(more, items, longer, k) == matched(transactions, items, list, k),
    decreases k,
{
    if k > 0 {
        lemma_matched_same(transactions, more, items, list, longer, k - 1);
        assert(list[k - 1] < transactions.len());
    }
}

/// The transactions that hold every item are those among the holders of
/// the first item that hold every item.
proof fn lemma_matched(transactions: Seq<Seq<Item>>, items: Seq<Item>)
    requires
        items.len() > 0,
        transactions.len() <= usize::MAX,
    ensures
        matched(
            transactions,
            items,
            holders_of(transactions, items[0]),
            holders_of(transactions, items[0]).len() as int,
        ) == holding(transactions, items),
    decreases transactions.len(),
{
    if transactions.len() > 0 {
        let rest = transactions.drop_last();
        lemma_matched(rest, items);
        lemma_holders(rest, items[0]);
        let h0 = holders_of(rest, items[0]);
        let h = holders_of(transactions, items[0]);
        let last = transactions.last();
        assert forall|t: int| 0 <= t < rest.len() implies rest[t] == transactions[t] by {}
        lemma_matched_same(rest, transactions, items, h0, h, h0.len() as int);
        if has_all(items)(last) {
            assert(last.contains(items[0]));
        }
        if last.contains(items[0]) {
            assert(h[h.len() - 1] as int == transactions.len() - 1);
            assert(transactions[h[h.len() - 1] as int] == last);
        }
    }
}

impl View for Index {
    type V = Seq<Seq<Item>>;

    closed spec fn view(&self) -> Seq<Seq<Item>> {
        self.held@
    }
}

spec fn listed(lists: Seq<Vec<usize>>, item: Item) -> Seq<usize> {
    if item.id < lists.len() {
        lists[item.id as int]@
    } else {
        Seq::empty()
    }
}

/// The lists are those of `transactions`, with `number` added to the lists
/// of the items of `extra`.
spec fn indexed(
    lists: Seq<Vec<usize>>,
    transactions: Seq<Seq<Item>>,
    extra: Seq<Item>,
    number: usize,
) -> bool {
    forall|item: Item|
        #[trigger] listed(lists, item) == if extra.contains(item) {
            holders_of(transactions, item).push(number)
        } else {
            holders_of(transactions, item)
        }
}

impl Index {
    /// Each list holds the numbers of the transactions that hold its item.
    pub closed spec fn wf(&self) -> bool {
        &&& self.transaction_count == self.held@.len()
        &&& indexed(self.index@, self.held@, Seq::empty(), 0)
    }

    /// An index of no transaction.
    pub fn new() -> (index: Index)
        ensures
            index.wf(),
            index@.len() == 0,
    {
        Index { index: Vec::new(), transaction_count: 0, held: Ghost(Seq::empty()) }
    }

    /// Takes another transaction, which gets the next number.
    pub fn insert(&mut self, transaction: &[Item])
        requires
            old(self).wf(),
            transaction@.no_duplicates(),
            old(self)@.len() < usize::MAX,
        ensures
            final(self).wf(),
            final(self)@ == old(self)@.push(transaction@),
    {
        let tid = self.transaction_count;
        let ghost held = self.held@;
        let ghost t = transaction@;
        let mut j: usize = 0;
        proof {
            assert(t.take(0) =~= Seq::<Item>::empty());
        }
        while j < transaction.len()
            invariant
                t == transaction@,
                t.no_duplicates(),
                j <= t.len(),
                self.held@ == held,
                self.transaction_count == tid,
                tid == held.len(),
                indexed(self.index@, held, t.take(j as int), tid),
            decreases t.len() - j,
        {
            let item = transaction[j];
            let ghost lists = self.index@;
            while self.index.len() <= item.as_index()
                invariant
                    self.held@ == held,
                    self.transaction_count == tid,
                    self.index@.len() >= lists.len(),
                    forall|other: Item| #[trigger] listed(self.index@, other) == listed(lists, other),
                decreases item.id + 1 - self.index@.len(),
            {
                let ghost before = self.index@;
                self.index.push(Vec::new());
                proof {
                    assert forall|other: Item| #[trigger]
                        listed(self.index@, other) == listed(lists, other) by {
                        assert(listed(before, other) == listed(lists, other));
                        if other.id < before.len() {
                            assert(self.index@[other.id as int] == before[other.id as int]);
                        } else if other.id == before.len() {
                            assert(listed(self.index@, other) =~= Seq::<usize>::empty());
                        }
                    }
                }
            }
            let ghost grown = self.index@;
            self.index[item.as_index()].push(tid);
            proof {
                let upto = t.take(j as int);
                let next = t.take(j + 1);
                assert(!upto.contains(item)) by {
                    if upto.contains(item) {
                        let k = choose|k: int| 0 <= k < upto.len() && upto[k] == item;
                        assert(t[k] == t[j as int]);
                    }
                }
                assert forall|other: Item| #[trigger]
                    listed(self.index@, other) == if next.contains(other) {
                        holders_of(held, other).push(tid)
                    } else {
                        holders_of(held, other)
                    } by {
                    assert(listed(grown, other) == listed(lists, other));
                    assert(listed(lists, other) == if upto.contains(other) {
                        holders_of(held, other).push(tid)
                    } else {
                        holders_of(held, other)
                    });
                    if upto.contains(other) {
                        let k = choose|k: int| 0 <= k < upto.len() && upto[k] == other;
                        assert(next[k] == other);
                    }
                    if other == item {
                        assert(next[j as int] == other);
                    } else {
                        assert(other.id != item.id);
                        if next.contains(other) {
                            let k = choose|k: int| 0 <= k < next.len() && next[k] == other;
                            assert(upto[k] == other);
                        }
                    }
                }
            }
            j += 1;
        }
        self.transaction_count = tid + 1;
        self.held = Ghost(held.push(t));
        proof {
            assert(t.take(t.len() as int) =~= t);
            let after = held.push(t);
            assert(after.drop_last() =~= held);
            assert forall|item: Item| #[trigger]
                listed(self.index@, item) == if Seq::<Item>::empty().contains(item) {
                    holders_of(after, item).push(0)
                } else {
                    holders_of(after, item)
                } by {
                assert(listed(self.index@, item) == if t.contains(item) {
                    holders_of(held, item).push(tid)
                } else {
                    holders_of(held, item)
                });
            }
        }
    }

    /// How many transactions hold every item of `transaction`; 0 for an
    /// empty one.
    pub fn count(&self, transaction: &[Item]) -> (n: usize)
        requires
            self.wf(),
        ensures
            n == if transaction@.len() == 0 {
                0
            } else {
                holding(self@, transaction@)
            },
    {
        if transaction.len() == 0 {
            return 0;
        }
        let ghost held = self.held@;
        let ghost items = transaction@;
        proof {
            lemma_matched(held, items);
            assert forall|i: int| 0 <= i < items.len() implies listed(self.index@, #[trigger] items[i])
                == holders_of(held, items[i]) by {
                assert(listed(self.index@, items[i]) == if Seq::<Item>::empty().contains(items[i]) {
                    holders_of(held, items[i]).push(0)
                } else {
                    holders_of(held, items[i])
                });
            }
        }
        let mut p: Vec<usize> = Vec::new();
        let mut i: usize = 0;
        while i < transaction.len()
            invariant
                items == transaction@,
                held == self.held@,
                held.len() <= usize::MAX,
                i <= items.len(),
                p@.len() == i,
                forall|j: int| 0 <= j < i ==> p@[j] == 0,
                forall|j: int| 0 <= j < i ==> (#[trigger] items[j]).id < self.index@.len(),
                forall|j: int|
                    0 <= j < items.len() ==> listed(self.index@, #[trigger] items[j])
                        == holders_of(held, items[j]),
            decreases items.len() - i,
        {
            if transaction[i].as_index() >= self.index.len() {
                proof {
                    lemma_none_holds(held, items, i as int);
                }
                return 0;
            }
            p.push(0);
            i += 1;
        }
        let first = transaction[0].as_index();
        let ghost list = holders_of(held, items[0]);
        let mut count: usize = 0;
        let mut k: usize = 0;
        while k < self.index[first].len()
            invariant
                items == transaction@,
                items.len() > 0,
                held == self.held@,
                held.len() <= usize::MAX,
                first == items[0].id,
                first < self.index@.len(),
                list == holders_of(held, items[0]),
                self.index@[first as int]@ == list,
                k <= list.len(),
                count == matched(held, items, list, k as int),
                count <= k,
                p@.len() == items.len(),
                forall|j: int| 0 <= j < items.len() ==> (#[trigger] items[j]).id < self.index@.len(),
                forall|j: int|
                    0 <= j < items.len() ==> listed(self.index@, #[trigger] items[j])
                        == holders_of(held, items[j]),
                forall|j: int, a: int|
                    1 <= j < items.len() && 0 <= a < p@[j] && k < list.len() ==> (#[trigger] holders_of(
                        held,
                        items[j],
                    )[a]) < list[k as int],
                forall|j: int| 1 <= j < items.len() ==> (#[trigger] p@[j]) <= holders_of(
                    held,
                    items[j],
                ).len(),
            decreases list.len() - k,
        {
            let tid = self.index[first][k];
            let mut in_all = true;
            let mut i: usize = 1;
            proof {
                lemma_holders(held, items[0]);
                assert(held[tid as int].contains(items[0]));
            }
            while i < transaction.len() && in_all
                invariant
                    items == transaction@,
                    items.len() > 0,
                    held == self.held@,
                    held.len() <= usize::MAX,
                    list == holders_of(held, items[0]),
                    k < list.len(),
                    tid == list[k as int],
                    tid < held.len(),
                    held[tid as int].contains(items[0]),
                    1 <= i <= items.len(),
                    p@.len() == items.len(),
                    forall|j: int|
                        0 <= j < items.len() ==> (#[trigger] items[j]).id < self.index@.len(),
                    forall|j: int|
                        0 <= j < items.len() ==> listed(self.index@, #[trigger] items[j])
                            == holders_of(held, items[j]),
                    forall|j: int, a: int|
                        1 <= j < items.len() && 0 <= a < p@[j] ==> (#[trigger] holders_of(
                            held,
                            items[j],
                        )[a]) < tid,
                    forall|j: int| 1 <= j < items.len() ==> (#[trigger] p@[j]) <= holders_of(
                        held,
                        items[j],
                    ).len(),
                    in_all ==> forall|j: int|
                        0 <= j < i ==> held[tid as int].contains(#[trigger] items[j]),
                    !in_all ==> !has_all(items)(held[tid as int]),
                decreases items.len() - i, in_all as int,
            {
                let at = transaction[i].as_index();
                let ghost other = holders_of(held, items[i as int]);
                proof {
                    assert(listed(self.index@, items[i as int]) == other);
                    lemma_holders(held, items[i as int]);
                }
                let mut q = p[i];
                while q < self.index[at].len() && self.index[at][q] < tid
                    invariant
                        at < self.index@.len(),
                        self.index@[at as int]@ == other,
                        q <= other.len(),
                        forall|a: int| 0 <= a < q ==> other[a] < tid,
                    decreases other.len() - q,
                {
                    q += 1;
                }
                let ghost before = p@;
                p.set(i, q);
                proof {
                    assert forall|j: int, a: int|
                        1 <= j < items.len() && 0 <= a < p@[j] implies (#[trigger] holders_of(
                        held,
                        items[j],
                    )[a]) < tid by {
                        if j != i {
                            assert(p@[j] == before[j]);
                        }
                    }
                }
                if q == self.index[at].len() || self.index[at][q] != tid {
                    proof {
                        if held[tid as int].contains(items[i as int]) {
                            assert(other.contains(tid));
                            let a = choose|a: int| 0 <= a < other.len() && other[a] == tid;
                            if a > q {
                                assert(other[q as int] < other[a]);
                            }
                        }
                    }
                    in_all = false;
                } else {
                    proof {
                        assert(held[other[q as int] as int].contains(items[i as int]));
                    }
                    i += 1;
                }
            }
            if in_all {
                count += 1;
            }
            proof {
                if k + 1 < list.len() {
                    assert(list[k as int] < list[k + 1]);
                }
            }
            k += 1;
        }
        count
    }

    /// The share of the transactions that hold every item of
    /// `transaction`.
    pub fn support(&self, transaction: &[Item]) -> (ratio: Ratio)
        requires
            self.wf(),
        ensures
            ratio.numerator == if transaction@.len() == 0 {
                0
            } else {
                holding(self@, transaction@)
            },
            ratio.denominator == self@.len(),
    {
        let count = self.count(transaction);
        Ratio::new(count as u64, self.transaction_count as u64)
    }
}

/// An item that no transaction holds is held together with others by no
/// transaction.
proof fn lemma_none_holds(transactions: Seq<Seq<Item>>, items: Seq<Item>, i: int)
    requires
        0 <= i < items.len(),
        holders_of(transactions, items[i]).len() == 0,
        transactions.len() <= usize::MAX,
    ensures
        holding(transactions, items) == 0,
    decreases transactions.len(),
{
    if transactions.len() > 0 {
        lemma_holders(transactions, items[i]);
        let rest = transactions.drop_last();
        lemma_none_holds(rest, items, i);
        if has_all(items)(transactions.last()) {
            assert(transactions.last().contains(items[i]));
            assert(transactions[transactions.len() - 1].contains(items[i]));
        }
    }
}

} // verus!
