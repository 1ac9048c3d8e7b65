use vstd::prelude::*;
use rayon::prelude::{IntoParallelRefIterator, ParallelIterator};
use crate::dataset::{
    before, conditional, has_all, has_item, item_weight, lemma_before,
    lemma_conditional_shorter, lemma_conditional_source, lemma_conditional_valid,
    lemma_measure_bounds, lemma_measure_monotone, lemma_measure_push, lemma_measure_same,
    lemma_measure_witness, longest, measure, support_count, total_weight, valid_log, Log,
};
use crate::fptree::FPTree;
use crate::item::Item;
use crate::itemset::{ascending_form, id_order, itemset_views, lemma_id_order, ItemSet};
use crate::vec_sets::{ascending, lemma_ascending_unique};

verus! {

/// `items` are the frequent items of `log`: those but the null item whose
/// weight is above `min_count`, by rising identifier.
pub open spec fn is_frequent_list(log: Log, min_count: u32, items: Seq<Item>) -> bool {
    &&& ascending(items)
    &&& forall|x: Item| items.contains(x) <==> (x.id >= 1 && item_weight(log, x) > min_count)
}

/// The frequent items of `log`.
pub open spec fn frequent(log: Log, min_count: u32) -> Seq<Item> {
    choose|items: Seq<Item>| is_frequent_list(log, min_count, items)
}

/// The count of the itemset that `item` extends: the smaller of the count
/// of the path and the weight of `item`.
pub open spec fn branch_count(log: Log, path_count: u32, item: Item) -> u32 {
    if item_weight(log, item) < path_count {
        item_weight(log, item) as u32
    } else {
        path_count
    }
}

/// What the items of `items` give, each in its turn: what is mined from the
/// conditional dataset of the item, with the item added to the path, and
/// then the path with the item itself.
pub open spec fn grow(
    log: Log,
    min_count: u32,
    path: Seq<Item>,
    path_count: u32,
    items: Seq<Item>,
) -> Seq<(Seq<Item>, u32)>
    decreases longest(log), items.len(),
{
    if items.len() == 0 {
        Seq::empty()
    } else {
        let item = items.last();
        let earlier = grow(log, min_count, path, path_count, items.drop_last());
        if valid_log(log) && item_weight(log, item) > min_count {
            proof {
                lemma_conditional_shorter(log, item);
            }
            earlier + (grow(
                conditional(log, item),
                min_count,
                path.push(item),
                branch_count(log, path_count, item),
                frequent(conditional(log, item), min_count),
            ) + seq![(ascending_form(path.push(item)), branch_count(log, path_count, item))])
        } else {
            earlier
        }
    }
}

/// The itemsets that extend `path` and are frequent in `log`, each with its
/// count, in the order in which FP-Growth finds them.
pub open spec fn mined(log: Log, min_count: u32, path: Seq<Item>, path_count: u32) -> Seq<
    (Seq<Item>, u32),
> {
    grow(log, min_count, path, path_count, frequent(log, min_count))
}

/// What one frequent item gives: the itemsets mined from its conditional
/// dataset, and then the path with the item.
pub open spec fn branch(
    log: Log,
    min_count: u32,
    path: Seq<Item>,
    path_count: u32,
    item: Item,
) -> Seq<(Seq<Item>, u32)> {
    mined(conditional(log, item), min_count, path.push(item), branch_count(log, path_count, item))
        + seq![(ascending_form(path.push(item)), branch_count(log, path_count, item))]
}

/// The part of FP-Growth for one frequent item of the tree: the item is
/// added to the path, the conditional tree of the item is mined, and the
/// path with the item is added at the end.
pub fn grow_branch(
    fptree: &FPTree,
    min_count: u32,
    path: &[Item],
    path_count: u32,
    item: Item,
) -> (itemsets: Vec<ItemSet>)
    requires
        fptree.wf(),
    ensures
        itemset_views(itemsets@) == branch(fptree@, min_count, path@, path_count, item),
{
    let mut itemset: Vec<Item> = Vec::new();
    let mut i: usize = 0;
    while i < path.len()
        invariant
            i <= path.len(),
            itemset@ == path@.take(i as int),
        decreases path.len() - i,
    {
        itemset.push(path[i]);
        assert(path@.take(i as int).push(path@[i as int]) == path@.take(i + 1));
        i += 1;
    }
    assert(path@.take(path.len() as int) == path@);
    itemset.push(item);
    let weight = fptree.item_count().get(&item);
    let new_path_count = if weight < path_count {
        weight
    } else {
        path_count
    };
    let conditional_tree = fptree.construct_conditional_tree(item);
    let mut result = fp_growth(&conditional_tree, min_count, itemset.as_slice(), new_path_count);
    let ghost inner = result@;
    result.push(ItemSet::new(itemset, new_path_count));
    proof {
        assert(itemset_views(result@) =~= itemset_views(inner) + seq![
            (ascending_form(path@.push(item)), new_path_count),
        ]);
    }
    result
}

/// `par_iter`, `flat_map` and `collect` of rayon, with [`grow_branch`] as
/// what is done to each item. Trusted: the call gives what `grow_branch`
/// returned for the first item, then what it returned for the second, and
/// so on to the last. Each of the items is frequent in the tree.
#[verifier::external_body]
fn grow_in_parallel(
    fptree: &FPTree,
    min_count: u32,
    path: &[Item],
    path_count: u32,
    items: &Vec<Item>,
) -> (itemsets: Vec<ItemSet>)
    requires
        fptree.wf(),
        forall|k: int| 0 <= k < items@.len() ==> item_weight(fptree@, #[trigger] items@[k]) > min_count,
    ensures
        itemset_views(itemsets@) == grow(fptree@, min_count, path@, path_count, items@),
{
    items.par_iter().flat_map(
        |item| grow_branch(fptree, min_count, path, path_count, *item),
    ).collect()
}

/// FP-Growth: every itemset that extends `path` and is frequent in the
/// tree, with its count. An item is frequent where its frequency in the
/// tree is above `min_count`.
pub fn fp_growth(fptree: &FPTree, min_count: u32, path: &[Item], path_count: u32) -> (itemsets: Vec<
    ItemSet,
>)
    requires
        fptree.wf(),
    ensures
        itemset_views(itemsets@) == mined(fptree@, min_count, path@, path_count),
{
    let counter = fptree.item_count();
    let items = if min_count == u32::MAX {
        Vec::new()
    } else {
        counter.items_with_count_at_least(min_count + 1)
    };
    proof {
        fptree.lemma_dataset_valid();
        assert forall|x: Item| items@.contains(x) <==> (x.id >= 1 && item_weight(fptree@, x)
            > min_count) by {
            assert(counter.count(x) == item_weight(fptree@, x));
            lemma_measure_bounds(fptree@, has_item(x));
        }
        assert(is_frequent_list(fptree@, min_count, items@));
        lemma_ascending_unique(items@, frequent(fptree@, min_count));
        assert forall|k: int| 0 <= k < items@.len() implies item_weight(
            fptree@,
            #[trigger] items@[k],
        ) > min_count by {
            assert(items@.contains(items@[k]));
        }
    }
    grow_in_parallel(fptree, min_count, path, path_count, &items)
}


/// The items of `t` stand by rising rank.
pub open spec fn rises(t: Seq<Item>, rank: spec_fn(Item) -> int) -> bool {
    forall|a: int, b: int| 0 <= a < b < t.len() ==> rank(t[a]) < rank(t[b])
}

/// Every transaction of `log` is in the one order that `rank` gives, as
/// the transactions of a tree are.
pub open spec fn ordered_by(log: Log, rank: spec_fn(Item) -> int) -> bool {
    forall|j: int| 0 <= j < log.len() ==> rises((#[trigger] log[j]).0, rank)
}

spec fn frequent_upto(log: Log, min_count: u32, n: nat) -> Seq<Item>
    decreases n,
{
    if n == 0 {
        Seq::empty()
    } else if item_weight(log, Item { id: n as u32 }) > min_count {
        frequent_upto(log, min_count, (n - 1) as nat).push(Item { id: n as u32 })
    } else {
        frequent_upto(log, min_count, (n - 1) as nat)
    }
}

proof fn lemma_frequent_upto(log: Log, min_count: u32, n: nat)
    requires
        n <= u32::MAX,
    ensures
        ascending(frequent_upto(log, min_count, n)),
        forall|x: Item|
            frequent_upto(log, min_count, n).contains(x) <==> (1 <= x.id <= n && item_weight(log, x)
                > min_count),
    decreases n,
{
    if n > 0 {
        let rest = frequent_upto(log, min_count, (n - 1) as nat);
        lemma_frequent_upto(log, min_count, (n - 1) as nat);
        let all = frequent_upto(log, min_count, n);
        let top = Item { id: n as u32 };
        assert forall|k: int| 0 <= k < rest.len() implies (#[trigger] rest[k]).id < n by {
            assert(rest.contains(rest[k]));
        }
        assert forall|x: Item| all.contains(x) <==> (1 <= x.id <= n && item_weight(log, x)
            > min_count) by {
            if all.contains(x) {
                let k = choose|k: int| 0 <= k < all.len() && all[k] == x;
                if k < rest.len() {
                    assert(rest[k] == x);
                    assert(rest.contains(x));
                }
            }
            if rest.contains(x) {
                let k = choose|k: int| 0 <= k < rest.len() && rest[k] == x;
                assert(all[k] == x);
            }
            if x == top && item_weight(log, x) > min_count {
                assert(all[all.len() - 1] == x);
            }
        }
    }
}

/// The frequent items of a dataset form a list.
pub proof fn lemma_frequent(log: Log, min_count: u32)
    ensures
        is_frequent_list(log, min_count, frequent(log, min_count)),
{
    lemma_frequent_upto(log, min_count, u32::MAX as nat);
    assert(is_frequent_list(log, min_count, frequent_upto(log, min_count, u32::MAX as nat)));
}

proof fn lemma_form(s: Seq<Item>)
    ensures
        ascending_form(s).to_multiset() == s.to_multiset(),
        vstd::relations::sorted_by(ascending_form(s), id_order()),
        ascending_form(s).len() == s.len(),
        forall|x: Item| ascending_form(s).contains(x) <==> s.contains(x),
        s.no_duplicates() ==> ascending(ascending_form(s)),
{
    broadcast use vstd::seq_lib::group_to_multiset_ensures;

    lemma_id_order();
    s.lemma_sort_by_ensures(id_order());
    let f = ascending_form(s);
    vstd::seq_lib::to_multiset_len(s);
    vstd::seq_lib::to_multiset_len(f);
    assert forall|x: Item| f.contains(x) <==> s.contains(x) by {
        assert(f.contains(x) <==> f.to_multiset().count(x) > 0);
        assert(s.contains(x) <==> s.to_multiset().count(x) > 0);
    }
    if s.no_duplicates() {
        s.lemma_multiset_has_no_duplicates();
        f.lemma_multiset_has_no_duplicates_conv();
        assert forall|i: int, j: int| 0 <= i < j < f.len() implies f[i].id < f[j].id by {
            assert(id_order()(f[i], f[j]));
            assert(f[i] != f[j]);
        }
    }
}

proof fn lemma_form_same(a: Seq<Item>, b: Seq<Item>)
    requires
        a.to_multiset() == b.to_multiset(),
    ensures
        ascending_form(a) == ascending_form(b),
{
    lemma_id_order();
    lemma_form(a);
    lemma_form(b);
    vstd::seq_lib::lemma_sorted_unique(ascending_form(a), ascending_form(b), id_order());
}

proof fn lemma_form_of_ascending(s: Seq<Item>)
    requires
        ascending(s),
    ensures
        ascending_form(s) == s,
{
    lemma_id_order();
    lemma_form(s);
    assert(vstd::relations::sorted_by(s, id_order()));
    vstd::seq_lib::lemma_sorted_unique(ascending_form(s), s, id_order());
}

/// Itemsets that hold the same items have the same support.
pub proof fn lemma_support_same(log: Log, a: Seq<Item>, b: Seq<Item>)
    requires
        forall|x: Item| a.contains(x) <==> b.contains(x),
    ensures
        support_count(log, a) == support_count(log, b),
{
    assert forall|k: int| 0 <= k < log.len() implies has_all(a)((#[trigger] log[k]).0) == has_all(
        b,
    )(log[k].0) by {
        let t = log[k].0;
        if has_all(a)(t) {
            assert forall|i: int| 0 <= i < b.len() implies t.contains(#[trigger] b[i]) by {
                assert(b.contains(b[i]));
                let j = choose|j: int| 0 <= j < a.len() && a[j] == b[i];
                assert(t.contains(a[j]));
            }
        }
        if has_all(b)(t) {
            assert forall|i: int| 0 <= i < a.len() implies t.contains(#[trigger] a[i]) by {
                assert(a.contains(a[i]));
                let j = choose|j: int| 0 <= j < b.len() && b[j] == a[i];
                assert(t.contains(b[j]));
            }
        }
    }
    lemma_measure_same(log, has_all(a), has_all(b));
}

/// A part of an itemset has at least the support of the itemset.
pub proof fn lemma_support_antitone(log: Log, part: Seq<Item>, whole: Seq<Item>)
    requires
        forall|x: Item| part.contains(x) ==> whole.contains(x),
    ensures
        support_count(log, part) >= support_count(log, whole),
{
    assert forall|k: int| 0 <= k < log.len() && has_all(whole)((#[trigger] log[k]).0) implies has_all(
        part,
    )(log[k].0) by {
        let t = log[k].0;
        assert forall|i: int| 0 <= i < part.len() implies t.contains(#[trigger] part[i]) by {
            assert(part.contains(part[i]));
            let j = choose|j: int| 0 <= j < whole.len() && whole[j] == part[i];
            assert(t.contains(whole[j]));
        }
    }
    lemma_measure_monotone(log, has_all(whole), has_all(part));
}

proof fn lemma_single_support(log: Log, item: Item)
    ensures
        support_count(log, seq![item]) == item_weight(log, item),
{
    assert forall|k: int| 0 <= k < log.len() implies has_all(seq![item])((#[trigger] log[k]).0)
        == has_item(item)(log[k].0) by {
        let t = log[k].0;
        if has_all(seq![item])(t) {
            assert(t.contains(seq![item][0]));
        }
    }
    lemma_measure_same(log, has_all(seq![item]), has_item(item));
}

proof fn lemma_measure_conditional(
    log: Log,
    item: Item,
    inner: spec_fn(Seq<Item>) -> bool,
    outer: spec_fn(Seq<Item>) -> bool,
)
    requires
        forall|j: int|
            0 <= j < log.len() ==> outer((#[trigger] log[j]).0) == (log[j].0.contains(item)
                && inner(before(log[j].0, item))),
    ensures
        measure(conditional(log, item), inner) == measure(log, outer),
    decreases log.len(),
{
    if log.len() > 0 {
        let rest = log.drop_last();
        assert forall|j: int| 0 <= j < rest.len() implies outer((#[trigger] rest[j]).0) == (
        rest[j].0.contains(item) && inner(before(rest[j].0, item))) by {
            assert(rest[j] == log[j]);
        }
        lemma_measure_conditional(rest, item, inner, outer);
        assert(log[log.len() - 1] == log.last());
        if log.last().0.contains(item) {
            lemma_measure_push(
                conditional(rest, item),
                (before(log.last().0, item), log.last().1),
                inner,
            );
        }
    }
}

proof fn lemma_conditional_ordered(log: Log, item: Item, rank: spec_fn(Item) -> int)
    requires
        valid_log(log),
        ordered_by(log, rank),
    ensures
        ordered_by(conditional(log, item), rank),
{
    let cond = conditional(log, item);
    assert forall|k: int| 0 <= k < cond.len() implies rises((#[trigger] cond[k]).0, rank) by {
        let j = lemma_conditional_source(log, item, k);
        let t = log[j].0;
        lemma_before(t, item);
        assert(rises(t, rank));
        let b = before(t, item);
        assert forall|x: int, y: int| 0 <= x < y < b.len() implies rank(b[x]) < rank(b[y]) by {
            assert(b[x] == t[x] && b[y] == t[y]);
        }
    }
}

/// The place of an item of a transaction that holds it.
proof fn lemma_place(t: Seq<Item>, x: Item) -> (p: int)
    requires
        t.contains(x),
    ensures
        0 <= p < t.len(),
        t[p] == x,
{
    choose|p: int| 0 <= p < t.len() && t[p] == x
}

/// For items that all rank below `item`, the support in the conditional
/// dataset of `item` is the support together with `item`.
proof fn lemma_conditional_support(log: Log, item: Item, e: Seq<Item>, rank: spec_fn(Item) -> int)
    requires
        valid_log(log),
        ordered_by(log, rank),
        forall|i: int| 0 <= i < e.len() ==> rank(#[trigger] e[i]) < rank(item),
    ensures
        support_count(conditional(log, item), e) == support_count(log, seq![item] + e),
{
    let whole = seq![item] + e;
    assert forall|j: int| 0 <= j < log.len() implies has_all(whole)((#[trigger] log[j]).0) == (
    log[j].0.contains(item) && has_all(e)(before(log[j].0, item))) by {
        let t = log[j].0;
        assert(rises(t, rank));
        if has_all(whole)(t) {
            assert(t.contains(whole[0]));
            lemma_before(t, item);
            let at = t.index_of(item);
            assert forall|i: int| 0 <= i < e.len() implies before(t, item).contains(
                #[trigger] e[i],
            ) by {
                assert(whole[i + 1] == e[i]);
                assert(t.contains(whole[i + 1]));
                let p = lemma_place(t, e[i]);
                if p > at {
                    assert(rank(t[at]) < rank(t[p]));
                }
                assert(p < at);
                assert(before(t, item)[p] == e[i]);
            }
        }
        if t.contains(item) && has_all(e)(before(t, item)) {
            lemma_before(t, item);
            assert forall|i: int| 0 <= i < whole.len() implies t.contains(#[trigger] whole[i]) by {
                if i > 0 {
                    assert(whole[i] == e[i - 1]);
                    assert(before(t, item).contains(e[i - 1]));
                }
            }
        }
    }
    lemma_measure_conditional(log, item, has_all(e), has_all(whole));
}

/// Items with support in the conditional dataset of `item` rank below
/// `item`, and `item` is not among them.
proof fn lemma_conditional_ranks(log: Log, item: Item, e: Seq<Item>, rank: spec_fn(Item) -> int)
    requires
        valid_log(log),
        ordered_by(log, rank),
        support_count(conditional(log, item), e) > 0,
    ensures
        forall|i: int| 0 <= i < e.len() ==> rank(#[trigger] e[i]) < rank(item),
        !e.contains(item),
{
    let cond = conditional(log, item);
    let k = lemma_measure_witness(cond, has_all(e));
    let j = lemma_conditional_source(log, item, k);
    let t = log[j].0;
    lemma_before(t, item);
    assert(rises(t, rank));
    let at = t.index_of(item);
    assert forall|i: int| 0 <= i < e.len() implies rank(#[trigger] e[i]) < rank(item) by {
        assert(before(t, item).contains(e[i]));
        let p = lemma_place(before(t, item), e[i]);
        assert(t[p] == e[i]);
        assert(rank(t[p]) < rank(t[at]));
    }
    if e.contains(item) {
        let i = choose|i: int| 0 <= i < e.len() && e[i] == item;
        assert(rank(e[i]) < rank(item));
    }
}

/// Each itemset in what the items of `items` give extends the path by
/// items that are frequent together, and its count is their support.
proof fn lemma_grow_sound(
    log: Log,
    min_count: u32,
    path: Seq<Item>,
    path_count: u32,
    items: Seq<Item>,
    rank: spec_fn(Item) -> int,
    k: int,
) -> (e: Seq<Item>)
    requires
        valid_log(log),
        ordered_by(log, rank),
        path_count >= total_weight(log),
        0 <= k < grow(log, min_count, path, path_count, items).len(),
    ensures
        e.len() > 0,
        e.no_duplicates(),
        grow(log, min_count, path, path_count, items)[k].0 == ascending_form(path + e),
        grow(log, min_count, path, path_count, items)[k].1 == support_count(log, e),
        support_count(log, e) > min_count,
    decreases longest(log), items.len(),
{
    let item = items.last();
    let earlier = grow(log, min_count, path, path_count, items.drop_last());
    if k < earlier.len() {
        lemma_grow_sound(log, min_count, path, path_count, items.drop_last(), rank, k)
    } else {
        let cond = conditional(log, item);
        let count = branch_count(log, path_count, item);
        let inner = grow(cond, min_count, path.push(item), count, frequent(cond, min_count));
        lemma_conditional_valid(log, item);
        lemma_conditional_shorter(log, item);
        lemma_conditional_ordered(log, item, rank);
        lemma_measure_bounds(log, has_item(item));
        lemma_single_support(log, item);
        assert(count == item_weight(log, item));
        if k - earlier.len() < inner.len() {
            let rest = lemma_grow_sound(
                cond,
                min_count,
                path.push(item),
                count,
                frequent(cond, min_count),
                rank,
                k - earlier.len(),
            );
            lemma_conditional_ranks(log, item, rest, rank);
            lemma_conditional_support(log, item, rest, rank);
            let e = seq![item] + rest;
            assert(path.push(item) + rest =~= path + e);
            assert forall|a: int, b: int| 0 <= a < e.len() && 0 <= b < e.len() && a != b implies e[a]
                != e[b] by {
                if a > 0 && b > 0 {
                    assert(e[a] == rest[a - 1] && e[b] == rest[b - 1]);
                } else if a == 0 {
                    assert(e[b] == rest[b - 1]);
                    assert(rest.contains(rest[b - 1]));
                } else {
                    assert(e[a] == rest[a - 1]);
                    assert(rest.contains(rest[a - 1]));
                }
            }
            e
        } else {
            let e = seq![item];
            assert(path.push(item) =~= path + e);
            e
        }
    }
}

/// What one frequent item gives is part of what the items give together.
proof fn lemma_branch_in_grow(
    log: Log,
    min_count: u32,
    path: Seq<Item>,
    path_count: u32,
    items: Seq<Item>,
    i: int,
    j: int,
) -> (k: int)
    requires
        valid_log(log),
        0 <= i < items.len(),
        item_weight(log, items[i]) > min_count,
        0 <= j < branch(log, min_count, path, path_count, items[i]).len(),
    ensures
        0 <= k < grow(log, min_count, path, path_count, items).len(),
        grow(log, min_count, path, path_count, items)[k] == branch(
            log,
            min_count,
            path,
            path_count,
            items[i],
        )[j],
    decreases items.len(),
{
    let earlier = grow(log, min_count, path, path_count, items.drop_last());
    if i == items.len() - 1 {
        earlier.len() + j
    } else {
        assert(items.drop_last()[i] == items[i]);
        let k = lemma_branch_in_grow(log, min_count, path, path_count, items.drop_last(), i, j);
        k
    }
}

/// In a list of items with distinct ranks, the place of the one with the
/// highest rank.
proof fn lemma_highest(e: Seq<Item>, rank: spec_fn(Item) -> int) -> (m: int)
    requires
        e.len() > 0,
        forall|a: int, b: int| 0 <= a < e.len() && 0 <= b < e.len() && a != b ==> rank(e[a])
            != rank(e[b]),
    ensures
        0 <= m < e.len(),
        forall|i: int| 0 <= i < e.len() && i != m ==> rank(#[trigger] e[i]) < rank(e[m]),
    decreases e.len(),
{
    if e.len() == 1 {
        0
    } else {
        let rest = e.drop_last();
        assert forall|a: int, b: int|
            0 <= a < rest.len() && 0 <= b < rest.len() && a != b implies rank(rest[a]) != rank(
            rest[b],
        ) by {
            assert(rest[a] == e[a] && rest[b] == e[b]);
        }
        let m0 = lemma_highest(rest, rank);
        let last = e.len() - 1;
        assert(rest[m0] == e[m0]);
        if rank(e[last]) > rank(e[m0]) {
            assert forall|i: int| 0 <= i < e.len() && i != last implies rank(#[trigger] e[i])
                < rank(e[last]) by {
                if i != m0 {
                    assert(rest[i] == e[i]);
                    assert(rank(rest[i]) < rank(rest[m0]));
                }
            }
            last
        } else {
            assert forall|i: int| 0 <= i < e.len() && i != m0 implies rank(#[trigger] e[i]) < rank(
                e[m0],
            ) by {
                if i < last {
                    assert(rest[i] == e[i]);
                    assert(rank(rest[i]) < rank(rest[m0]));
                }
            }
            m0
        }
    }
}

/// Every list of items that are frequent together is mined.
proof fn lemma_mined_complete(
    log: Log,
    min_count: u32,
    path: Seq<Item>,
    path_count: u32,
    rank: spec_fn(Item) -> int,
    e: Seq<Item>,
) -> (k: int)
    requires
        valid_log(log),
        ordered_by(log, rank),
        path_count >= total_weight(log),
        e.len() > 0,
        e.no_duplicates(),
        support_count(log, e) > min_count,
    ensures
        0 <= k < mined(log, min_count, path, path_count).len(),
        mined(log, min_count, path, path_count)[k].0 == ascending_form(path + e),
    decreases longest(log),
{
    broadcast use vstd::seq_lib::group_to_multiset_ensures;

    let w = lemma_measure_witness(log, has_all(e));
    let t = log[w].0;
    assert(rises(t, rank));
    assert forall|a: int, b: int| 0 <= a < e.len() && 0 <= b < e.len() && a != b implies rank(e[a])
        != rank(e[b]) by {
        assert(t.contains(e[a]) && t.contains(e[b]));
        let pa = lemma_place(t, e[a]);
        let pb = lemma_place(t, e[b]);
        if pa < pb {
            assert(rank(t[pa]) < rank(t[pb]));
        } else if pb < pa {
            assert(rank(t[pb]) < rank(t[pa]));
        }
    }
    let m = lemma_highest(e, rank);
    let item = e[m];
    let rest = e.remove(m);
    assert(t.contains(e[m]));
    let at = lemma_place(t, item);
    assert(item.id != 0);
    assert forall|x: Item| seq![item].contains(x) implies e.contains(x) by {
        assert(seq![item][0] == item);
    }
    lemma_support_antitone(log, seq![item], e);
    lemma_single_support(log, item);
    lemma_frequent(log, min_count);
    let items = frequent(log, min_count);
    assert(items.contains(item));
    let i = choose|i: int| 0 <= i < items.len() && items[i] == item;
    let cond = conditional(log, item);
    let count = branch_count(log, path_count, item);
    lemma_conditional_valid(log, item);
    lemma_conditional_shorter(log, item);
    lemma_conditional_ordered(log, item, rank);
    lemma_measure_bounds(log, has_item(item));
    assert(count == item_weight(log, item));
    let inner = mined(cond, min_count, path.push(item), count);
    let j = if rest.len() == 0 {
        assert(e =~= seq![item]);
        assert(path.push(item) =~= path + e);
        inner.len() as int
    } else {
        assert forall|x: int| 0 <= x < rest.len() implies rank(#[trigger] rest[x]) < rank(item) by {
            if x < m {
                assert(rest[x] == e[x]);
            } else {
                assert(rest[x] == e[x + 1]);
            }
        }
        lemma_conditional_support(log, item, rest, rank);
        assert forall|x: Item| (seq![item] + rest).contains(x) <==> e.contains(x) by {
            let joined = seq![item] + rest;
            if joined.contains(x) {
                let p = choose|p: int| 0 <= p < joined.len() && joined[p] == x;
                if p == 0 {
                    assert(e[m] == x);
                } else if p - 1 < m {
                    assert(e[p - 1] == x);
                } else {
                    assert(e[p] == x);
                }
            }
            if e.contains(x) {
                let p = choose|p: int| 0 <= p < e.len() && e[p] == x;
                if p == m {
                    assert(joined[0] == x);
                } else if p < m {
                    assert(joined[p + 1] == x);
                } else {
                    assert(joined[p] == x);
                }
            }
        }
        lemma_support_same(log, seq![item] + rest, e);
        assert forall|a: int, b: int|
            0 <= a < rest.len() && 0 <= b < rest.len() && a != b implies rest[a] != rest[b] by {
            let ea = if a < m {
                a
            } else {
                a + 1
            };
            let eb = if b < m {
                b
            } else {
                b + 1
            };
            assert(rest[a] == e[ea] && rest[b] == e[eb]);
        }
        let k0 = lemma_mined_complete(cond, min_count, path.push(item), count, rank, rest);
        e.remove_ensures(m);
        assert(e =~= rest.insert(m, item)) by {
            assert(rest.insert(m, item).len() == e.len());
        }
        assert((path.push(item) + rest).to_multiset() =~= (path + e).to_multiset()) by {
            vstd::seq_lib::lemma_multiset_commutative(path.push(item), rest);
            vstd::seq_lib::lemma_multiset_commutative(path, e);
            vstd::seq_lib::to_multiset_insert(rest, m, item);
        }
        lemma_form_same(path.push(item) + rest, path + e);
        k0
    };
    assert(branch(log, min_count, path, path_count, item)[j].0 == ascending_form(path + e));
    let k = lemma_branch_in_grow(log, min_count, path, path_count, items, i, j);
    k
}

/// The items that each mined itemset adds to the path, in the order in
/// which they were added: the list of the extensions goes with what
/// `grow` gives, place by place.
pub open spec fn extensions(log: Log, min_count: u32, items: Seq<Item>) -> Seq<Seq<Item>>
    decreases longest(log), items.len(),
{
    if items.len() == 0 {
        Seq::empty()
    } else {
        let item = items.last();
        let earlier = extensions(log, min_count, items.drop_last());
        if valid_log(log) && item_weight(log, item) > min_count {
            proof {
                lemma_conditional_shorter(log, item);
            }
            earlier + (extensions(
                conditional(log, item),
                min_count,
                frequent(conditional(log, item), min_count),
            ).map_values(|e: Seq<Item>| seq![item] + e) + seq![seq![item]])
        } else {
            earlier
        }
    }
}

/// Each mined itemset is the path together with its extension, and an
/// extension begins with an item of the list, which outranks the rest of
/// it; the items of an extension are frequent together.
proof fn lemma_extensions(
    log: Log,
    min_count: u32,
    path: Seq<Item>,
    path_count: u32,
    items: Seq<Item>,
    rank: spec_fn(Item) -> int,
    k: int,
)
    requires
        valid_log(log),
        ordered_by(log, rank),
        0 <= k < grow(log, min_count, path, path_count, items).len(),
    ensures
        grow(log, min_count, path, path_count, items).len() == extensions(
            log,
            min_count,
            items,
        ).len(),
        grow(log, min_count, path, path_count, items)[k].0 == ascending_form(
            path + extensions(log, min_count, items)[k],
        ),
        extensions(log, min_count, items)[k].len() > 0,
        items.contains(extensions(log, min_count, items)[k][0]),
        support_count(log, extensions(log, min_count, items)[k]) > min_count,
        forall|m: int|
            1 <= m < extensions(log, min_count, items)[k].len() ==> rank(
                #[trigger] extensions(log, min_count, items)[k][m],
            ) < rank(extensions(log, min_count, items)[k][0]),
    decreases longest(log), items.len(),
{
    lemma_grow_len(log, min_count, path, path_count, items);
    let item = items.last();
    let rest = items.drop_last();
    let earlier = grow(log, min_count, path, path_count, rest);
    let earlier_ext = extensions(log, min_count, rest);
    lemma_grow_len(log, min_count, path, path_count, rest);
    assert(items[items.len() - 1] == item);
    if k < earlier.len() {
        lemma_extensions(log, min_count, path, path_count, rest, rank, k);
        let e = earlier_ext[k];
        let at = choose|at: int| 0 <= at < rest.len() && rest[at] == e[0];
        assert(items[at] == e[0]);
    } else {
        let cond = conditional(log, item);
        let count = branch_count(log, path_count, item);
        let inner = grow(cond, min_count, path.push(item), count, frequent(cond, min_count));
        let inner_ext = extensions(cond, min_count, frequent(cond, min_count));
        lemma_conditional_valid(log, item);
        lemma_conditional_shorter(log, item);
        lemma_conditional_ordered(log, item, rank);
        lemma_grow_len(cond, min_count, path.push(item), count, frequent(cond, min_count));
        lemma_single_support(log, item);
        let j = k - earlier.len();
        if j < inner.len() {
            lemma_extensions(
                cond,
                min_count,
                path.push(item),
                count,
                frequent(cond, min_count),
                rank,
                j,
            );
            let tail = inner_ext[j];
            let e = seq![item] + tail;
            assert(extensions(log, min_count, items)[k] == e);
            lemma_conditional_ranks(log, item, tail, rank);
            lemma_conditional_support(log, item, tail, rank);
            assert(path.push(item) + tail =~= path + e);
            assert forall|m: int| 1 <= m < e.len() implies rank(#[trigger] e[m]) < rank(e[0]) by {
                assert(e[m] == tail[m - 1]);
            }
        } else {
            let e = seq![item];
            assert(extensions(log, min_count, items)[k] == e);
            assert(path.push(item) =~= path + e);
        }
    }
}

proof fn lemma_grow_len(
    log: Log,
    min_count: u32,
    path: Seq<Item>,
    path_count: u32,
    items: Seq<Item>,
)
    ensures
        grow(log, min_count, path, path_count, items).len() == extensions(
            log,
            min_count,
            items,
        ).len(),
    decreases longest(log), items.len(),
{
    if items.len() > 0 {
        let item = items.last();
        lemma_grow_len(log, min_count, path, path_count, items.drop_last());
        if valid_log(log) && item_weight(log, item) > min_count {
            lemma_conditional_shorter(log, item);
            let cond = conditional(log, item);
            lemma_grow_len(
                cond,
                min_count,
                path.push(item),
                branch_count(log, path_count, item),
                frequent(cond, min_count),
            );
        }
    }
}

/// `a` holds an item that `b` lacks, or `b` one that `a` lacks.
pub open spec fn differ(a: Seq<Item>, b: Seq<Item>) -> bool {
    exists|x: Item| a.contains(x) != b.contains(x)
}

/// No two extensions hold the same items.
proof fn lemma_extensions_differ(
    log: Log,
    min_count: u32,
    items: Seq<Item>,
    rank: spec_fn(Item) -> int,
    j: int,
    k: int,
)
    requires
        valid_log(log),
        ordered_by(log, rank),
        items.no_duplicates(),
        0 <= j < k < extensions(log, min_count, items).len(),
    ensures
        differ(extensions(log, min_count, items)[j], extensions(log, min_count, items)[k]),
    decreases longest(log), items.len(),
{
    let none: Seq<Item> = Seq::empty();
    let item = items.last();
    let rest = items.drop_last();
    let all = extensions(log, min_count, items);
    let earlier = extensions(log, min_count, rest);
    let a = all[j];
    let b = all[k];
    lemma_grow_len(log, min_count, none, 0, items);
    lemma_grow_len(log, min_count, none, 0, rest);
    assert(items[items.len() - 1] == item);
    assert forall|x: int, y: int| 0 <= x < rest.len() && 0 <= y < rest.len() && x != y implies rest[x]
        != rest[y] by {
        assert(rest[x] == items[x] && rest[y] == items[y]);
    }
    if k < earlier.len() {
        lemma_extensions_differ(log, min_count, rest, rank, j, k);
    } else {
        let cond = conditional(log, item);
        let inner = extensions(cond, min_count, frequent(cond, min_count));
        lemma_conditional_valid(log, item);
        lemma_conditional_shorter(log, item);
        lemma_conditional_ordered(log, item, rank);
        lemma_frequent(cond, min_count);
        lemma_grow_len(cond, min_count, none, 0, frequent(cond, min_count));
        lemma_extensions(log, min_count, none, 0, items, rank, k);
        assert(b[0] == item);
        if j < earlier.len() {
            lemma_extensions(log, min_count, none, 0, items, rank, j);
            lemma_extensions(log, min_count, none, 0, rest, rank, j);
            assert(a == earlier[j]);
            let at = choose|at: int| 0 <= at < rest.len() && rest[at] == a[0];
            assert(items[at] == a[0]);
            assert(a[0] != item);
            assert(a.contains(a[0]) && b.contains(b[0]));
            if a.contains(item) && b.contains(a[0]) {
                let pa = choose|pa: int| 0 <= pa < a.len() && a[pa] == item;
                let pb = choose|pb: int| 0 <= pb < b.len() && b[pb] == a[0];
                assert(rank(a[pa]) < rank(a[0]));
                assert(rank(b[pb]) < rank(b[0]));
            }
        } else {
            let ja = j - earlier.len();
            let kb = k - earlier.len();
            assert(ja < inner.len());
            let ta = inner[ja];
            assert(a == seq![item] + ta);
            lemma_extensions(cond, min_count, none, 0, frequent(cond, min_count), rank, ja);
            lemma_conditional_ranks(log, item, ta, rank);
            if kb < inner.len() {
                let tb = inner[kb];
                assert(b == seq![item] + tb);
                lemma_extensions(cond, min_count, none, 0, frequent(cond, min_count), rank, kb);
                lemma_conditional_ranks(log, item, tb, rank);
                lemma_extensions_differ(cond, min_count, frequent(cond, min_count), rank, ja, kb);
                let x = choose|x: Item| ta.contains(x) != tb.contains(x);
                assert(x != item);
                lemma_joined(item, ta, x);
                lemma_joined(item, tb, x);
            } else {
                assert(b == seq![item]);
                assert(ta.contains(ta[0]));
                lemma_joined(item, ta, ta[0]);
                if b.contains(ta[0]) {
                    let pb = choose|pb: int| 0 <= pb < b.len() && b[pb] == ta[0];
                    assert(b[pb] == item);
                }
            }
        }
    }
}

proof fn lemma_joined(item: Item, tail: Seq<Item>, x: Item)
    ensures
        (seq![item] + tail).contains(x) <==> (x == item || tail.contains(x)),
{
    let joined = seq![item] + tail;
    if joined.contains(x) {
        let p = choose|p: int| 0 <= p < joined.len() && joined[p] == x;
        if p > 0 {
            assert(tail[p - 1] == x);
        }
    }
    if x == item {
        assert(joined[0] == x);
    }
    if tail.contains(x) {
        let p = choose|p: int| 0 <= p < tail.len() && tail[p] == x;
        assert(joined[p + 1] == x);
    }
}

/// FP-Growth finds no itemset twice.
pub proof fn lemma_mined_once(
    log: Log,
    min_count: u32,
    path_count: u32,
    rank: spec_fn(Item) -> int,
    j: int,
    k: int,
)
    requires
        valid_log(log),
        ordered_by(log, rank),
        0 <= j < k < mined(log, min_count, Seq::empty(), path_count).len(),
    ensures
        mined(log, min_count, Seq::empty(), path_count)[j].0 != mined(
            log,
            min_count,
            Seq::empty(),
            path_count,
        )[k].0,
{
    let none: Seq<Item> = Seq::empty();
    let items = frequent(log, min_count);
    lemma_frequent(log, min_count);
    lemma_extensions(log, min_count, none, path_count, items, rank, j);
    lemma_extensions(log, min_count, none, path_count, items, rank, k);
    lemma_extensions_differ(log, min_count, items, rank, j, k);
    let a = extensions(log, min_count, items)[j];
    let b = extensions(log, min_count, items)[k];
    assert(none + a =~= a);
    assert(none + b =~= b);
    lemma_form(a);
    lemma_form(b);
}

/// What FP-Growth finds is frequent: each itemset that is mined from the
/// whole dataset is ascending and not empty, its count is its support in
/// the dataset, and that is above `min_count`.
pub proof fn lemma_mined_is_frequent(
    log: Log,
    min_count: u32,
    path_count: u32,
    rank: spec_fn(Item) -> int,
    k: int,
)
    requires
        valid_log(log),
        ordered_by(log, rank),
        path_count >= total_weight(log),
        0 <= k < mined(log, min_count, Seq::empty(), path_count).len(),
    ensures
        mined(log, min_count, Seq::empty(), path_count)[k].0.len() > 0,
        ascending(mined(log, min_count, Seq::empty(), path_count)[k].0),
        mined(log, min_count, Seq::empty(), path_count)[k].1 == support_count(
            log,
            mined(log, min_count, Seq::empty(), path_count)[k].0,
        ),
        mined(log, min_count, Seq::empty(), path_count)[k].1 > min_count,
{
    let e = lemma_grow_sound(
        log,
        min_count,
        Seq::empty(),
        path_count,
        frequent(log, min_count),
        rank,
        k,
    );
    assert(Seq::<Item>::empty() + e =~= e);
    lemma_form(e);
    lemma_support_same(log, ascending_form(e), e);
}

/// What is frequent, FP-Growth finds: each ascending itemset that is not
/// empty and whose support in the dataset is above `min_count` is mined
/// from the whole dataset.
pub proof fn lemma_frequent_is_mined(
    log: Log,
    min_count: u32,
    path_count: u32,
    rank: spec_fn(Item) -> int,
    items: Seq<Item>,
)
    requires
        valid_log(log),
        ordered_by(log, rank),
        path_count >= total_weight(log),
        items.len() > 0,
        ascending(items),
        support_count(log, items) > min_count,
    ensures
        exists|k: int|
            0 <= k < mined(log, min_count, Seq::empty(), path_count).len() && (#[trigger] mined(
                log,
                min_count,
                Seq::empty(),
                path_count,
            )[k]).0 == items,
{
    let k = lemma_mined_complete(log, min_count, Seq::empty(), path_count, rank, items);
    assert(Seq::<Item>::empty() + items =~= items);
    lemma_form_of_ascending(items);
    assert(mined(log, min_count, Seq::empty(), path_count)[k].0 == items);
}

} // verus!
