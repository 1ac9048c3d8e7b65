use vstd::prelude::*;
use crate::item::Item;

verus! {

/// A dataset as the mining sees it: transactions, each with the number of
/// times it stands for.
pub type Log = Seq<(Seq<Item>, u32)>;

/// The weight of the transactions of `log` that meet `pred`.
pub open spec fn measure(log: Log, pred: spec_fn(Seq<Item>) -> bool) -> int
    decreases log.len(),
{
    if log.len() == 0 {
        0
    } else {
        measure(log.drop_last(), pred) + if pred(log.last().0) {
            log.last().1 as int
        } else {
            0
        }
    }
}

/// The transactions that begin with `path`.
pub open spec fn passes(path: Seq<Item>) -> spec_fn(Seq<Item>) -> bool {
    |t: Seq<Item>| path.is_prefix_of(t)
}

/// The transactions that hold `item`.
pub open spec fn has_item(item: Item) -> spec_fn(Seq<Item>) -> bool {
    |t: Seq<Item>| t.contains(item)
}

/// The transactions that hold every item of `items`.
pub open spec fn has_all(items: Seq<Item>) -> spec_fn(Seq<Item>) -> bool {
    |t: Seq<Item>| forall|k: int| 0 <= k < items.len() ==> t.contains(#[trigger] items[k])
}

/// All transactions.
pub open spec fn any() -> spec_fn(Seq<Item>) -> bool {
    |t: Seq<Item>| true
}

/// The weight of the transactions that begin with `path`.
pub open spec fn weight_through(log: Log, path: Seq<Item>) -> int {
    measure(log, passes(path))
}

/// The weight of the transactions that hold `item`.
pub open spec fn item_weight(log: Log, item: Item) -> int {
    measure(log, has_item(item))
}

/// The weight of the transactions that hold every item of `items`: the
/// support count of the itemset.
pub open spec fn support_count(log: Log, items: Seq<Item>) -> int {
    measure(log, has_all(items))
}

/// The weight of all transactions.
pub open spec fn total_weight(log: Log) -> int {
    measure(log, any())
}

/// A transaction as a tree takes it: no item twice, and no null item.
pub open spec fn valid_transaction(t: Seq<Item>) -> bool {
    &&& t.no_duplicates()
    &&& forall|k: int| 0 <= k < t.len() ==> (#[trigger] t[k]).id != 0
}

/// Every transaction of `log` is valid.
pub open spec fn valid_log(log: Log) -> bool {
    forall|k: int| 0 <= k < log.len() ==> valid_transaction((#[trigger] log[k]).0)
}

/// What stands in `t` before `item`, which `t` holds.
pub open spec fn before(t: Seq<Item>, item: Item) -> Seq<Item> {
    t.take(t.index_of(item))
}

/// The conditional dataset of `item`: of each transaction that holds
/// `item`, what stands before it, with the same weight.
pub open spec fn conditional(log: Log, item: Item) -> Log
    decreases log.len(),
{
    if log.len() == 0 {
        Seq::empty()
    } else if log.last().0.contains(item) {
        conditional(log.drop_last(), item).push((before(log.last().0, item), log.last().1))
    } else {
        conditional(log.drop_last(), item)
    }
}

/// The length of the longest transaction.
pub open spec fn longest(log: Log) -> nat
    decreases log.len(),
{
    if log.len() == 0 {
        0
    } else if log.last().0.len() > longest(log.drop_last()) {
        log.last().0.len()
    } else {
        longest(log.drop_last())
    }
}

pub proof fn lemma_measure_push(log: Log, entry: (Seq<Item>, u32), pred: spec_fn(Seq<Item>) -> bool)
    ensures
        measure(log.push(entry), pred) == measure(log, pred) + if pred(entry.0) {
            entry.1 as int
        } else {
            0
        },
{
    assert(log.push(entry).drop_last() =~= log);
}

/// A measure is not negative, and not above the weight of the whole.
pub proof fn lemma_measure_bounds(log: Log, pred: spec_fn(Seq<Item>) -> bool)
    ensures
        0 <= measure(log, pred) <= total_weight(log),
    decreases log.len(),
{
    if log.len() > 0 {
        lemma_measure_bounds(log.drop_last(), pred);
    }
}

/// Where `p` is met only by transactions that meet `q`, the measure of `p`
/// is at most that of `q`.
pub proof fn lemma_measure_monotone(
    log: Log,
    p: spec_fn(Seq<Item>) -> bool,
    q: spec_fn(Seq<Item>) -> bool,
)
    requires
        forall|k: int| 0 <= k < log.len() && p((#[trigger] log[k]).0) ==> q(log[k].0),
    ensures
        measure(log, p) <= measure(log, q),
    decreases log.len(),
{
    if log.len() > 0 {
        let rest = log.drop_last();
        assert forall|k: int| 0 <= k < rest.len() && p((#[trigger] rest[k]).0) implies q(
            rest[k].0,
        ) by {
            assert(rest[k] == log[k]);
        }
        lemma_measure_monotone(rest, p, q);
        assert(log.last() == log[log.len() - 1]);
    }
}

/// Two conditions that the same transactions of `log` meet have the same
/// measure.
pub proof fn lemma_measure_same(
    log: Log,
    p: spec_fn(Seq<Item>) -> bool,
    q: spec_fn(Seq<Item>) -> bool,
)
    requires
        forall|k: int| 0 <= k < log.len() ==> p((#[trigger] log[k]).0) == q(log[k].0),
    ensures
        measure(log, p) == measure(log, q),
{
    lemma_measure_monotone(log, p, q);
    lemma_measure_monotone(log, q, p);
}

/// A measure above 0 has a transaction that meets the condition.
pub proof fn lemma_measure_witness(log: Log, pred: spec_fn(Seq<Item>) -> bool) -> (k: int)
    requires
        measure(log, pred) > 0,
    ensures
        0 <= k < log.len(),
        pred(log[k].0),
    decreases log.len(),
{
    if pred(log.last().0) {
        log.len() - 1
    } else {
        let k = lemma_measure_witness(log.drop_last(), pred);
        assert(log.drop_last()[k] == log[k]);
        k
    }
}

/// Each entry of a conditional dataset comes from a transaction that holds
/// the item.
pub proof fn lemma_conditional_source(log: Log, item: Item, k: int) -> (j: int)
    requires
        0 <= k < conditional(log, item).len(),
    ensures
        0 <= j < log.len(),
        log[j].0.contains(item),
        conditional(log, item)[k] == (before(log[j].0, item), log[j].1),
    decreases log.len(),
{
    let rest = log.drop_last();
    if log.last().0.contains(item) && k == conditional(rest, item).len() {
        log.len() - 1
    } else {
        let j = lemma_conditional_source(rest, item, k);
        assert(rest[j] == log[j]);
        j
    }
}

/// What stands before an item in a valid transaction is a valid
/// transaction that lacks the item and is shorter.
pub proof fn lemma_before(t: Seq<Item>, item: Item)
    requires
        valid_transaction(t),
        t.contains(item),
    ensures
        valid_transaction(before(t, item)),
        !before(t, item).contains(item),
        before(t, item).len() < t.len(),
        before(t, item).is_prefix_of(t),
        0 <= t.index_of(item) < t.len(),
        t[t.index_of(item)] == item,
        forall|x: Item| before(t, item).contains(x) ==> t.contains(x),
{
    let i = t.index_of(item);
    let b = before(t, item);
    assert(0 <= i < t.len() && t[i] == item);
    assert forall|a: int, c: int| 0 <= a < b.len() && 0 <= c < b.len() && a != c implies b[a]
        != b[c] by {
        assert(b[a] == t[a] && b[c] == t[c]);
    }
    if b.contains(item) {
        let a = choose|a: int| 0 <= a < b.len() && b[a] == item;
        assert(t[a] == item);
    }
    assert forall|x: Item| b.contains(x) implies t.contains(x) by {
        let a = choose|a: int| 0 <= a < b.len() && b[a] == x;
        assert(t[a] == x);
    }
    assert forall|k: int| 0 <= k < b.len() implies (#[trigger] b[k]).id != 0 by {
        assert(b[k] == t[k]);
    }
}

/// The conditional dataset of a valid dataset is valid.
pub proof fn lemma_conditional_valid(log: Log, item: Item)
    requires
        valid_log(log),
    ensures
        valid_log(conditional(log, item)),
        total_weight(conditional(log, item)) == item_weight(log, item),
        conditional(log, item).len() <= log.len(),
    decreases log.len(),
{
    if log.len() > 0 {
        let rest = log.drop_last();
        assert forall|k: int| 0 <= k < rest.len() implies valid_transaction(
            (#[trigger] rest[k]).0,
        ) by {
            assert(rest[k] == log[k]);
        }
        lemma_conditional_valid(rest, item);
        let t = log.last().0;
        assert(log.last() == log[log.len() - 1]);
        if t.contains(item) {
            lemma_before(t, item);
            lemma_measure_push(conditional(rest, item), (before(t, item), log.last().1), any());
        }
    }
}

/// A transaction is no longer than the longest.
pub proof fn lemma_longest(log: Log, k: int)
    requires
        0 <= k < log.len(),
    ensures
        log[k].0.len() <= longest(log),
    decreases log.len(),
{
    if k < log.len() - 1 {
        lemma_longest(log.drop_last(), k);
        assert(log.drop_last()[k] == log[k]);
    }
}

/// The conditional dataset of an item that some valid transaction holds has
/// shorter transactions than the dataset.
pub proof fn lemma_conditional_shorter(log: Log, item: Item)
    requires
        valid_log(log),
        item_weight(log, item) > 0,
    ensures
        longest(conditional(log, item)) < longest(log),
{
    let cond = conditional(log, item);
    let w = lemma_measure_witness(log, has_item(item));
    lemma_longest(log, w);
    lemma_before(log[w].0, item);
    assert forall|k: int| 0 <= k < cond.len() implies (#[trigger] cond[k]).0.len() <= longest(
        log,
    ) - 1 by {
        let j = lemma_conditional_source(log, item, k);
        lemma_before(log[j].0, item);
        lemma_longest(log, j);
    }
    lemma_longest_bound(cond, (longest(log) - 1) as nat);
}

proof fn lemma_longest_bound(log: Log, bound: nat)
    requires
        forall|k: int| 0 <= k < log.len() ==> (#[trigger] log[k]).0.len() <= bound,
    ensures
        longest(log) <= bound,
    decreases log.len(),
{
    if log.len() > 0 {
        let rest = log.drop_last();
        assert forall|k: int| 0 <= k < rest.len() implies (#[trigger] rest[k]).0.len()
            <= bound by {
            assert(rest[k] == log[k]);
        }
        lemma_longest_bound(rest, bound);
        assert(log.last() == log[log.len() - 1]);
    }
}

} // verus!
