use vstd::prelude::*;
use crate::dataset::{
    any, before, conditional, has_item, item_weight, lemma_before, lemma_conditional_source,
    lemma_conditional_valid, lemma_measure_bounds, lemma_measure_push, lemma_measure_witness,
    measure, passes, total_weight, valid_log, valid_transaction, weight_through, Log,
};
use crate::item::Item;
use crate::item_counter::ItemCounter;

verus! {

/// One node of the tree. Its place in the arena is its `id`.
pub struct FPNode {
    id: usize,
    item: Item,
    count: u32,
    children: Vec<usize>,
    parent: usize,
}

/// A prefix tree of transactions in an arena: the root stands at 0 and
/// holds the null item, and all links are places in the arena. With each
/// item goes the list of the nodes that hold it. The view is the dataset
/// that was inserted.
pub struct FPTree {
    nodes: Vec<FPNode>,
    item_count: ItemCounter,
    item_lists: Vec<Vec<usize>>,
    log: Ghost<Log>,
}

/// The items on the way from the root to node `n`, the root left out.
spec fn path_in(nodes: Seq<FPNode>, n: int) -> Seq<Item>
    decreases n,
{
    if 0 < n < nodes.len() && nodes[n].parent < n {
        path_in(nodes, nodes[n].parent as int).push(nodes[n].item)
    } else {
        Seq::empty()
    }
}

spec fn child_at(nodes: Seq<FPNode>, n: int, k: int) -> int {
    nodes[n].children@[k] as int
}

spec fn shaped(nodes: Seq<FPNode>) -> bool {
    &&& nodes.len() >= 1
    &&& nodes[0].item.id == 0
    &&& nodes[0].parent == 0
    &&& nodes[0].count == 0
    &&& forall|n: int| 0 <= n < nodes.len() ==> (#[trigger] nodes[n]).id == n
    &&& forall|n: int|
        1 <= n < nodes.len() ==> (#[trigger] nodes[n]).parent < n && nodes[n].item.id != 0
            && nodes[nodes[n].parent as int].children@.contains(n as usize)
    &&& forall|n: int, k: int|
        0 <= n < nodes.len() && 0 <= k < nodes[n].children@.len() ==> n < #[trigger] child_at(
            nodes,
            n,
            k,
        ) < nodes.len() && nodes[child_at(nodes, n, k)].parent == n
    &&& forall|n: int, k1: int, k2: int|
        0 <= n < nodes.len() && 0 <= k1 < k2 < nodes[n].children@.len() ==> nodes[#[trigger] child_at(
            nodes,
            n,
            k1,
        )].item != nodes[#[trigger] child_at(nodes, n, k2)].item
}

spec fn list_at(lists: Seq<Vec<usize>>, i: int, k: int) -> int {
    lists[i]@[k] as int
}

spec fn listed_ok(nodes: Seq<FPNode>, lists: Seq<Vec<usize>>) -> bool {
    &&& forall|i: int, k: int|
        0 <= i < lists.len() && 0 <= k < lists[i]@.len() ==> 1 <= #[trigger] list_at(lists, i, k)
            < nodes.len() && nodes[list_at(lists, i, k)].item.id == i
    &&& forall|i: int| 0 <= i < lists.len() ==> (#[trigger] lists[i])@.no_duplicates()
    &&& forall|n: int|
        1 <= n < nodes.len() ==> (#[trigger] nodes[n]).item.id < lists.len()
            && lists[nodes[n].item.id as int]@.contains(n as usize)
}

/// The counts of the nodes are those of `log`, to which the part `extra`
/// of a transaction of weight `weight` has been added.
spec fn nodes_counted(nodes: Seq<FPNode>, log: Log, extra: Seq<Item>, weight: int) -> bool {
    forall|n: int|
        1 <= n < nodes.len() ==> (#[trigger] nodes[n]).count == weight_through(
            log,
            path_in(nodes, n),
        ) + if path_in(nodes, n).is_prefix_of(extra) {
            weight
        } else {
            0
        }
}

/// The frequencies of the items are those of `log`, to which the part
/// `extra` of a transaction of weight `weight` has been added.
pub open spec fn items_counted(
    counter: ItemCounter,
    log: Log,
    extra: Seq<Item>,
    weight: int,
) -> bool {
    forall|item: Item|
        #[trigger] counter.count(item) == item_weight(log, item) + if extra.contains(item) {
            weight
        } else {
            0
        }
}

/// No path holds an item twice.
spec fn paths_valid(nodes: Seq<FPNode>) -> bool {
    forall|n: int| 0 <= n < nodes.len() ==> (#[trigger] path_in(nodes, n)).no_duplicates()
}

spec fn path_node(nodes: Seq<FPNode>, path: Seq<Item>, n: int) -> bool {
    1 <= n < nodes.len() && path_in(nodes, n) == path
}

spec fn has_path(nodes: Seq<FPNode>, path: Seq<Item>) -> bool {
    exists|n: int| path_node(nodes, path, n)
}

/// Each transaction of `log` lies in the tree, from its first item to its
/// last.
spec fn covered(nodes: Seq<FPNode>, log: Log) -> bool {
    forall|j: int, k: int|
        0 <= j < log.len() && 1 <= k <= log[j].0.len() ==> has_path(
            nodes,
            #[trigger] log[j].0.take(k),
        )
}

proof fn lemma_path(nodes: Seq<FPNode>, n: int)
    requires
        shaped(nodes),
        1 <= n < nodes.len(),
    ensures
        path_in(nodes, n).len() >= 1,
        path_in(nodes, n).last() == nodes[n].item,
        path_in(nodes, n).drop_last() == path_in(nodes, nodes[n].parent as int),
        path_in(nodes, 0).len() == 0,
{
    let p = path_in(nodes, nodes[n].parent as int);
    assert(p.push(nodes[n].item).drop_last() =~= p);
}

/// The path of a node does not change when nodes are added and counts are
/// changed.
proof fn lemma_path_stable(before: Seq<FPNode>, after: Seq<FPNode>, n: int)
    requires
        before.len() <= after.len(),
        forall|k: int|
            0 <= k < before.len() ==> (#[trigger] after[k]).item == before[k].item
                && after[k].parent == before[k].parent,
        0 <= n < before.len(),
    ensures
        path_in(after, n) == path_in(before, n),
    decreases n,
{
    if 0 < n && before[n].parent < n {
        lemma_path_stable(before, after, before[n].parent as int);
    }
}

/// No two nodes have the same path.
proof fn lemma_path_distinct(nodes: Seq<FPNode>, a: int, b: int)
    requires
        shaped(nodes),
        0 <= a < nodes.len(),
        0 <= b < nodes.len(),
        path_in(nodes, a) == path_in(nodes, b),
    ensures
        a == b,
    decreases a,
{
    if a == 0 {
        if b != 0 {
            lemma_path(nodes, b);
        }
    } else if b == 0 {
        lemma_path(nodes, a);
    } else {
        lemma_path(nodes, a);
        lemma_path(nodes, b);
        let pa = nodes[a].parent as int;
        let pb = nodes[b].parent as int;
        lemma_path_distinct(nodes, pa, pb);
        let ka = choose|k: int|
            0 <= k < nodes[pa].children@.len() && nodes[pa].children@[k] == a as usize;
        let kb = choose|k: int|
            0 <= k < nodes[pa].children@.len() && nodes[pa].children@[k] == b as usize;
        assert(child_at(nodes, pa, ka) == a);
        assert(child_at(nodes, pa, kb) == b);
        if ka < kb {
            assert(nodes[child_at(nodes, pa, ka)].item != nodes[child_at(nodes, pa, kb)].item);
        } else if kb < ka {
            assert(nodes[child_at(nodes, pa, kb)].item != nodes[child_at(nodes, pa, ka)].item);
        }
    }
}

/// Two arenas of which the second has the nodes of the first, with the same
/// items and parents, and maybe more.
spec fn grown(before: Seq<FPNode>, after: Seq<FPNode>) -> bool {
    &&& before.len() <= after.len()
    &&& forall|k: int|
        0 <= k < before.len() ==> (#[trigger] after[k]).item == before[k].item && after[k].parent
            == before[k].parent
}

proof fn lemma_paths_persist(before: Seq<FPNode>, after: Seq<FPNode>)
    requires
        grown(before, after),
    ensures
        forall|n: int| 0 <= n < before.len() ==> #[trigger] path_in(after, n) == path_in(before, n),
        forall|p: Seq<Item>| has_path(before, p) ==> has_path(after, p),
        forall|log: Log| covered(before, log) ==> covered(after, log),
{
    assert forall|n: int| 0 <= n < before.len() implies #[trigger] path_in(after, n) == path_in(
        before,
        n,
    ) by {
        lemma_path_stable(before, after, n);
    }
    assert forall|p: Seq<Item>| has_path(before, p) implies has_path(after, p) by {
        let n = choose|n: int| path_node(before, p, n);
        assert(path_node(after, p, n));
    }
    assert forall|log: Log| covered(before, log) implies covered(after, log) by {
        assert forall|j: int, k: int|
            0 <= j < log.len() && 1 <= k <= log[j].0.len() implies has_path(
            after,
            #[trigger] log[j].0.take(k),
        ) by {
            assert(has_path(before, log[j].0.take(k)));
        }
    }
}

/// A prefix of `t.take(j + 1)` is `t.take(j + 1)` itself or a prefix of
/// `t.take(j)`.
proof fn lemma_prefix_step(p: Seq<Item>, t: Seq<Item>, j: int)
    requires
        0 <= j < t.len(),
    ensures
        p.is_prefix_of(t.take(j + 1)) <==> (p.is_prefix_of(t.take(j)) || p == t.take(j + 1)),
        t.take(j).push(t[j]) == t.take(j + 1),
        p.is_prefix_of(t.take(j)) ==> p.len() <= j,
{
    let a = t.take(j);
    let b = t.take(j + 1);
    assert(a.push(t[j]) =~= b);
    if p.is_prefix_of(b) {
        if p.len() <= j {
            assert(p =~= a.subrange(0, p.len() as int)) by {
                assert(p == b.subrange(0, p.len() as int));
            }
        } else {
            assert(p =~= b);
        }
    }
    if p.is_prefix_of(a) {
        assert(p =~= b.subrange(0, p.len() as int)) by {
            assert(p == a.subrange(0, p.len() as int));
        }
    }
    if p == b {
        assert(p =~= b.subrange(0, p.len() as int));
    }
}

pub proof fn lemma_item_step(
    before: ItemCounter,
    after: ItemCounter,
    log: Log,
    t: Seq<Item>,
    j: int,
    weight: int,
)
    requires
        valid_transaction(t),
        0 <= j < t.len(),
        items_counted(before, log, t.take(j), weight),
        forall|other: Item|
            #[trigger] after.count(other) == if other == t[j] {
                (before.count(t[j]) + weight) as u32
            } else {
                before.count(other)
            },
        before.count(t[j]) + weight <= u32::MAX,
        weight >= 0,
    ensures
        items_counted(after, log, t.take(j + 1), weight),
{
    let a = t.take(j);
    let b = t.take(j + 1);
    assert(!a.contains(t[j])) by {
        if a.contains(t[j]) {
            let k = choose|k: int| 0 <= k < a.len() && a[k] == t[j];
            assert(t[k] == t[j]);
        }
    }
    assert forall|item: Item|
        #[trigger] after.count(item) == item_weight(log, item) + if b.contains(item) {
            weight
        } else {
            0
        } by {
        assert(before.count(item) == item_weight(log, item) + if a.contains(item) {
            weight
        } else {
            0
        });
        if a.contains(item) {
            let k = choose|k: int| 0 <= k < a.len() && a[k] == item;
            assert(b[k] == item);
        }
        if item == t[j] {
            assert(b[j] == item);
        }
        if b.contains(item) {
            let k = choose|k: int| 0 <= k < b.len() && b[k] == item;
            if k < j {
                assert(a[k] == item);
            }
        }
    }
}

pub proof fn lemma_item_room(counter: ItemCounter, log: Log, t: Seq<Item>, j: int, weight: int)
    requires
        valid_transaction(t),
        0 <= j < t.len(),
        items_counted(counter, log, t.take(j), weight),
    ensures
        counter.count(t[j]) == item_weight(log, t[j]),
        counter.count(t[j]) <= total_weight(log),
{
    let a = t.take(j);
    if a.contains(t[j]) {
        let k = choose|k: int| 0 <= k < a.len() && a[k] == t[j];
        assert(t[k] == t[j]);
    }
    assert(counter.count(t[j]) == item_weight(log, t[j]) + if a.contains(t[j]) {
        weight
    } else {
        0
    });
    lemma_measure_bounds(log, has_item(t[j]));
}

/// A child that holds the next item of the transaction lies at the next
/// prefix, and has not been counted for this transaction yet.
proof fn lemma_child_found(
    nodes: Seq<FPNode>,
    log: Log,
    extra: Seq<Item>,
    weight: int,
    cur: int,
    c: int,
)
    requires
        shaped(nodes),
        nodes_counted(nodes, log, extra, weight),
        0 <= cur < nodes.len(),
        1 <= c < nodes.len(),
        nodes[c].parent == cur,
        path_in(nodes, cur) == extra,
    ensures
        path_in(nodes, c) == extra.push(nodes[c].item),
        nodes[c].count == weight_through(log, path_in(nodes, c)),
        nodes[c].count <= total_weight(log),
{
    lemma_path(nodes, c);
    let p = path_in(nodes, c);
    assert(p =~= extra.push(nodes[c].item));
    assert(!p.is_prefix_of(extra));
    lemma_measure_bounds(log, passes(p));
}

/// A node made where no child held the item lies on no transaction of the
/// dataset, so its count of 0 is right.
proof fn lemma_node_made(
    before: Seq<FPNode>,
    after: Seq<FPNode>,
    log: Log,
    extra: Seq<Item>,
    weight: int,
    parent: int,
    item: Item,
)
    requires
        shaped(before),
        shaped(after),
        grown(before, after),
        after.len() == before.len() + 1,
        forall|k: int| 0 <= k < before.len() ==> (#[trigger] after[k]).count == before[k].count,
        0 <= parent < before.len(),
        after[before.len() as int].item == item,
        after[before.len() as int].parent == parent,
        after[before.len() as int].count == 0,
        covered(before, log),
        nodes_counted(before, log, extra, weight),
        paths_valid(before),
        !path_in(before, parent).contains(item),
        !path_in(before, parent).push(item).is_prefix_of(extra),
        forall|k: int|
            0 <= k < before[parent].children@.len() ==> before[#[trigger] child_at(
                before,
                parent,
                k,
            )].item != item,
    ensures
        nodes_counted(after, log, extra, weight),
        covered(after, log),
        paths_valid(after),
        path_in(after, before.len() as int) == path_in(before, parent).push(item),
        weight_through(log, path_in(before, parent).push(item)) == 0,
{
    lemma_paths_persist(before, after);
    let c = before.len() as int;
    let q = path_in(before, parent).push(item);
    lemma_path(after, c);
    assert(path_in(after, c) =~= q);
    if weight_through(log, q) > 0 {
        let j = lemma_measure_witness(log, passes(q));
        let t = log[j].0;
        assert(q.is_prefix_of(t));
        assert(t.take(q.len() as int) =~= q);
        assert(has_path(before, t.take(q.len() as int)));
        let x = choose|x: int| path_node(before, q, x);
        lemma_path(before, x);
        assert(q.drop_last() =~= path_in(before, parent));
        lemma_path_distinct(before, before[x].parent as int, parent);
        let k = choose|k: int|
            0 <= k < before[parent].children@.len() && before[parent].children@[k] == x as usize;
        assert(child_at(before, parent, k) == x);
        assert(false);
    }
    lemma_measure_bounds(log, passes(q));
    assert forall|n: int| 0 <= n < after.len() implies (#[trigger] path_in(
        after,
        n,
    )).no_duplicates() by {
        if n < before.len() {
            assert(path_in(after, n) == path_in(before, n));
        } else {
            let p = path_in(before, parent);
            assert(p.no_duplicates());
            assert forall|a: int, b: int| 0 <= a < q.len() && 0 <= b < q.len() && a != b implies q[a]
                != q[b] by {
                if a < p.len() && b < p.len() {
                    assert(q[a] == p[a] && q[b] == p[b]);
                } else if a < p.len() {
                    assert(p[a] == q[a]);
                    assert(p.contains(q[a]));
                } else {
                    assert(p[b] == q[b]);
                    assert(p.contains(q[b]));
                }
            }
        }
    }
    assert forall|n: int| 1 <= n < after.len() implies (#[trigger] after[n]).count
        == weight_through(log, path_in(after, n)) + if path_in(after, n).is_prefix_of(extra) {
        weight
    } else {
        0
    } by {
        if n < before.len() {
            assert(path_in(after, n) == path_in(before, n));
            assert(before[n].count == weight_through(log, path_in(before, n)) + if path_in(
                before,
                n,
            ).is_prefix_of(extra) {
                weight
            } else {
                0
            });
        }
    }
}

/// Once the node at the next prefix has taken the weight, the counts are
/// those for one item more of the transaction.
proof fn lemma_node_bumped(
    before: Seq<FPNode>,
    after: Seq<FPNode>,
    lists: Seq<Vec<usize>>,
    log: Log,
    t: Seq<Item>,
    j: int,
    weight: int,
    c: int,
)
    requires
        shaped(before),
        listed_ok(before, lists),
        0 <= j < t.len(),
        1 <= c < before.len(),
        after.len() == before.len(),
        forall|k: int| 0 <= k < before.len() && k != c ==> #[trigger] after[k] == before[k],
        after[c].item == before[c].item,
        after[c].parent == before[c].parent,
        after[c].children == before[c].children,
        after[c].id == before[c].id,
        after[c].count == before[c].count + weight,
        nodes_counted(before, log, t.take(j), weight),
        path_in(before, c) == t.take(j + 1),
        paths_valid(before),
    ensures
        shaped(after),
        listed_ok(after, lists),
        grown(before, after),
        paths_valid(after),
        nodes_counted(after, log, t.take(j + 1), weight),
        path_in(after, c) == t.take(j + 1),
{
    assert(grown(before, after));
    lemma_paths_persist(before, after);
    assert forall|n: int, k: int|
        0 <= n < after.len() && 0 <= k < after[n].children@.len() implies n < #[trigger] child_at(
        after,
        n,
        k,
    ) < after.len() && after[child_at(after, n, k)].parent == n by {
        assert(child_at(after, n, k) == child_at(before, n, k));
    }
    assert forall|n: int, k1: int, k2: int|
        0 <= n < after.len() && 0 <= k1 < k2 < after[n].children@.len() implies after[#[trigger] child_at(
        after,
        n,
        k1,
    )].item != after[#[trigger] child_at(after, n, k2)].item by {
        assert(child_at(after, n, k1) == child_at(before, n, k1));
        assert(child_at(after, n, k2) == child_at(before, n, k2));
    }
    assert forall|n: int| 1 <= n < after.len() implies (#[trigger] after[n]).parent < n
        && after[n].item.id != 0 && after[after[n].parent as int].children@.contains(
        n as usize,
    ) by {
        assert(before[before[n].parent as int].children@.contains(n as usize));
    }
    assert forall|i: int, k: int|
        0 <= i < lists.len() && 0 <= k < lists[i]@.len() implies 1 <= #[trigger] list_at(
        lists,
        i,
        k,
    ) < after.len() && after[list_at(lists, i, k)].item.id == i by {}
    assert forall|n: int| 1 <= n < after.len() implies (#[trigger] after[n]).item.id < lists.len()
        && lists[after[n].item.id as int]@.contains(n as usize) by {
        assert(before[n].item.id < lists.len());
    }
    assert forall|n: int| 1 <= n < after.len() implies (#[trigger] after[n]).count
        == weight_through(log, path_in(after, n)) + if path_in(after, n).is_prefix_of(
        t.take(j + 1),
    ) {
        weight
    } else {
        0
    } by {
        let p = path_in(before, n);
        assert(path_in(after, n) == p);
        lemma_prefix_step(p, t, j);
        assert(before[n].count == weight_through(log, p) + if p.is_prefix_of(t.take(j)) {
            weight
        } else {
            0
        });
        if n == c {
            assert(!p.is_prefix_of(t.take(j)));
        } else {
            if p == t.take(j + 1) {
                lemma_path_distinct(before, n, c);
            }
        }
    }
}

/// When the whole transaction has been added, the counts are those of the
/// dataset with the transaction at its end.
proof fn lemma_transaction_done(
    nodes: Seq<FPNode>,
    counter: ItemCounter,
    log: Log,
    t: Seq<Item>,
    weight: u32,
)
    requires
        shaped(nodes),
        covered(nodes, log),
        valid_log(log),
        valid_transaction(t),
        total_weight(log) + weight <= u32::MAX,
        nodes_counted(nodes, log, t, weight as int),
        items_counted(counter, log, t, weight as int),
        forall|k: int| 1 <= k <= t.len() ==> has_path(nodes, #[trigger] t.take(k)),
    ensures
        covered(nodes, log.push((t, weight))),
        valid_log(log.push((t, weight))),
        total_weight(log.push((t, weight))) <= u32::MAX,
        nodes_counted(nodes, log.push((t, weight)), Seq::empty(), 0),
        items_counted(counter, log.push((t, weight)), Seq::empty(), 0),
{
    let after = log.push((t, weight));
    lemma_measure_push(log, (t, weight), any());
    assert forall|j: int, k: int|
        0 <= j < after.len() && 1 <= k <= after[j].0.len() implies has_path(
        nodes,
        #[trigger] after[j].0.take(k),
    ) by {
        if j < log.len() {
            assert(after[j] == log[j]);
            assert(has_path(nodes, log[j].0.take(k)));
        }
    }
    assert forall|k: int| 0 <= k < after.len() implies valid_transaction(
        (#[trigger] after[k]).0,
    ) by {
        if k < log.len() {
            assert(after[k] == log[k]);
        }
    }
    assert forall|n: int| 1 <= n < nodes.len() implies (#[trigger] nodes[n]).count
        == weight_through(after, path_in(nodes, n)) + if path_in(nodes, n).is_prefix_of(
        Seq::<Item>::empty(),
    ) {
        0int
    } else {
        0
    } by {
        lemma_path(nodes, n);
        lemma_measure_push(log, (t, weight), passes(path_in(nodes, n)));
    }
    assert forall|item: Item|
        #[trigger] counter.count(item) == item_weight(after, item) + if Seq::<Item>::empty().contains(
            item,
        ) {
            0int
        } else {
            0
        } by {
        lemma_measure_push(log, (t, weight), has_item(item));
    }
}

/// What stands above node `n`: its path without its own item.
spec fn above(nodes: Seq<FPNode>, n: int) -> Seq<Item> {
    path_in(nodes, n).drop_last()
}

/// The nodes that hold `item`.
spec fn nodes_of(lists: Seq<Vec<usize>>, item: Item) -> Seq<usize> {
    if item.id < lists.len() {
        lists[item.id as int]@
    } else {
        Seq::empty()
    }
}

/// The dataset that a list of nodes gives: for each node, what stands
/// above it, with the count of the node.
spec fn base(nodes: Seq<FPNode>, list: Seq<usize>) -> Log {
    Seq::new(list.len(), |k: int| (above(nodes, list[k] as int), nodes[list[k] as int].count))
}

/// The weight in `log` of the nodes of `list` above which `pred` holds.
spec fn node_sum(
    nodes: Seq<FPNode>,
    list: Seq<usize>,
    log: Log,
    pred: spec_fn(Seq<Item>) -> bool,
) -> int
    decreases list.len(),
{
    if list.len() == 0 {
        0
    } else {
        node_sum(nodes, list.drop_last(), log, pred) + if pred(above(nodes, list.last() as int)) {
            weight_through(log, path_in(nodes, list.last() as int))
        } else {
            0
        }
    }
}

spec fn hit(nodes: Seq<FPNode>, n: int, t: Seq<Item>, pred: spec_fn(Seq<Item>) -> bool) -> bool {
    pred(above(nodes, n)) && path_in(nodes, n).is_prefix_of(t)
}

/// How many nodes of `list` lie on `t` and have `pred` hold above them.
spec fn hits(
    nodes: Seq<FPNode>,
    list: Seq<usize>,
    t: Seq<Item>,
    pred: spec_fn(Seq<Item>) -> bool,
) -> int
    decreases list.len(),
{
    if list.len() == 0 {
        0
    } else {
        hits(nodes, list.drop_last(), t, pred) + if hit(nodes, list.last() as int, t, pred) {
            1int
        } else {
            0
        }
    }
}

spec fn some_hit(
    nodes: Seq<FPNode>,
    list: Seq<usize>,
    t: Seq<Item>,
    pred: spec_fn(Seq<Item>) -> bool,
) -> bool {
    exists|k: int| 0 <= k < list.len() && hit(nodes, #[trigger] list[k] as int, t, pred)
}

spec fn holders(nodes: Seq<FPNode>, list: Seq<usize>, item: Item) -> bool {
    &&& list.no_duplicates()
    &&& forall|k: int|
        0 <= k < list.len() ==> 1 <= #[trigger] list[k] < nodes.len() && nodes[list[k] as int].item
            == item
}

proof fn lemma_base_sum(
    nodes: Seq<FPNode>,
    list: Seq<usize>,
    log: Log,
    pred: spec_fn(Seq<Item>) -> bool,
)
    requires
        shaped(nodes),
        nodes_counted(nodes, log, Seq::empty(), 0),
        forall|k: int| 0 <= k < list.len() ==> 1 <= #[trigger] list[k] < nodes.len(),
    ensures
        measure(base(nodes, list), pred) == node_sum(nodes, list, log, pred),
    decreases list.len(),
{
    if list.len() > 0 {
        let rest = list.drop_last();
        assert forall|k: int| 0 <= k < rest.len() implies 1 <= #[trigger] rest[k]
            < nodes.len() by {
            assert(rest[k] == list[k]);
        }
        lemma_base_sum(nodes, rest, log, pred);
        assert(base(nodes, list).drop_last() =~= base(nodes, rest));
        let n = list.last() as int;
        assert(list[list.len() - 1] == list.last());
        assert(nodes[n].count == weight_through(log, path_in(nodes, n)) + if path_in(
            nodes,
            n,
        ).is_prefix_of(Seq::<Item>::empty()) {
            0int
        } else {
            0
        });
    }
}

proof fn lemma_sum_push(
    nodes: Seq<FPNode>,
    list: Seq<usize>,
    log: Log,
    t: Seq<Item>,
    c: u32,
    pred: spec_fn(Seq<Item>) -> bool,
)
    ensures
        node_sum(nodes, list, log.push((t, c)), pred) == node_sum(nodes, list, log, pred) + c
            * hits(nodes, list, t, pred),
    decreases list.len(),
{
    if list.len() > 0 {
        let rest = list.drop_last();
        lemma_sum_push(nodes, rest, log, t, c, pred);
        let n = list.last() as int;
        lemma_measure_push(log, (t, c), passes(path_in(nodes, n)));
        let h = hits(nodes, rest, t, pred);
        assert(c * (h + 1) == c * h + c) by (nonlinear_arith);
    } else {
        assert(c * 0 == 0) by (nonlinear_arith);
    }
}

/// Two prefixes of a transaction that end with the same item are one.
proof fn lemma_same_end(first: Seq<Item>, second: Seq<Item>, t: Seq<Item>)
    requires
        t.no_duplicates(),
        first.is_prefix_of(t),
        second.is_prefix_of(t),
        first.len() > 0,
        second.len() > 0,
        first.last() == second.last(),
    ensures
        first == second,
{
    assert(first[first.len() - 1] == t[first.len() - 1]);
    assert(second[second.len() - 1] == t[second.len() - 1]);
    assert(first =~= second);
}

proof fn lemma_one_hit(
    nodes: Seq<FPNode>,
    list: Seq<usize>,
    item: Item,
    t: Seq<Item>,
    pred: spec_fn(Seq<Item>) -> bool,
)
    requires
        shaped(nodes),
        holders(nodes, list, item),
        t.no_duplicates(),
    ensures
        hits(nodes, list, t, pred) == if some_hit(nodes, list, t, pred) {
            1int
        } else {
            0
        },
    decreases list.len(),
{
    if list.len() > 0 {
        let rest = list.drop_last();
        let n = list.last() as int;
        assert(list[list.len() - 1] == list.last());
        assert forall|k: int| 0 <= k < rest.len() implies 1 <= #[trigger] rest[k] < nodes.len()
            && nodes[rest[k] as int].item == item by {
            assert(rest[k] == list[k]);
        }
        assert forall|a: int, b: int| 0 <= a < rest.len() && 0 <= b < rest.len() && a
            != b implies rest[a] != rest[b] by {
            assert(rest[a] == list[a] && rest[b] == list[b]);
        }
        lemma_one_hit(nodes, rest, item, t, pred);
        if some_hit(nodes, rest, t, pred) {
            let k = choose|k: int| 0 <= k < rest.len() && hit(nodes, #[trigger] rest[k] as int, t, pred);
            assert(rest[k] == list[k]);
            assert(hit(nodes, list[k] as int, t, pred));
            if hit(nodes, n, t, pred) {
                lemma_path(nodes, n);
                lemma_path(nodes, list[k] as int);
                lemma_same_end(path_in(nodes, n), path_in(nodes, list[k] as int), t);
                lemma_path_distinct(nodes, n, list[k] as int);
                assert(false);
            }
        } else {
            if hit(nodes, n, t, pred) {
                assert(hit(nodes, list[list.len() - 1] as int, t, pred));
            } else if some_hit(nodes, list, t, pred) {
                let k = choose|k: int| 0 <= k < list.len() && hit(nodes, #[trigger] list[k] as int, t, pred);
                if k < rest.len() {
                    assert(rest[k] == list[k]);
                }
                assert(false);
            }
        }
    }
}

/// A node that holds `item` lies on `t` exactly when `t` holds `item`, and
/// then what stands above the node is what stands before `item` in `t`.
proof fn lemma_hit_is_before(
    nodes: Seq<FPNode>,
    lists: Seq<Vec<usize>>,
    item: Item,
    t: Seq<Item>,
    pred: spec_fn(Seq<Item>) -> bool,
)
    requires
        shaped(nodes),
        listed_ok(nodes, lists),
        valid_transaction(t),
        forall|k: int| 1 <= k <= t.len() ==> has_path(nodes, #[trigger] t.take(k)),
    ensures
        some_hit(nodes, nodes_of(lists, item), t, pred) <==> (t.contains(item) && pred(
            before(t, item),
        )),
        holders(nodes, nodes_of(lists, item), item),
        t.contains(item) ==> exists|k: int|
            0 <= k < nodes_of(lists, item).len() && above(
                nodes,
                #[trigger] nodes_of(lists, item)[k] as int,
            ) == before(t, item),
{
    let list = nodes_of(lists, item);
    assert forall|k: int| 0 <= k < list.len() implies 1 <= #[trigger] list[k] < nodes.len()
        && nodes[list[k] as int].item == item by {
        assert(list_at(lists, item.id as int, k) == list[k]);
    }
    if t.contains(item) {
        lemma_before(t, item);
        let idx = t.index_of(item);
        let key = t.take(idx + 1);
        assert(has_path(nodes, key));
        let x = choose|x: int| path_node(nodes, key, x);
        lemma_path(nodes, x);
        assert(nodes[x].item == item);
        let k = choose|k: int| 0 <= k < list.len() && list[k] == x as usize;
        assert(above(nodes, x) =~= before(t, item));
        assert(t.take(idx + 1).is_prefix_of(t));
        assert(above(nodes, list[k] as int) == before(t, item));
        if pred(before(t, item)) {
            assert(hit(nodes, list[k] as int, t, pred));
        }
    }
    if some_hit(nodes, list, t, pred) {
        let k = choose|k: int| 0 <= k < list.len() && hit(nodes, #[trigger] list[k] as int, t, pred);
        let n = list[k] as int;
        lemma_path(nodes, n);
        let p = path_in(nodes, n);
        assert(t[p.len() - 1] == p[p.len() - 1]);
        assert(t.contains(item));
        lemma_before(t, item);
        assert(t.index_of(item) == p.len() - 1);
        assert(above(nodes, n) =~= before(t, item));
    }
}

/// The nodes that hold an item give, with their counts, the same measures
/// as the conditional dataset of the item.
proof fn lemma_node_sum(
    nodes: Seq<FPNode>,
    lists: Seq<Vec<usize>>,
    log: Log,
    item: Item,
    pred: spec_fn(Seq<Item>) -> bool,
)
    requires
        shaped(nodes),
        listed_ok(nodes, lists),
        covered(nodes, log),
        valid_log(log),
    ensures
        node_sum(nodes, nodes_of(lists, item), log, pred) == measure(conditional(log, item), pred),
    decreases log.len(),
{
    let list = nodes_of(lists, item);
    if log.len() == 0 {
        assert(log =~= Seq::<(Seq<Item>, u32)>::empty());
        lemma_sum_empty(nodes, list, pred);
    } else {
        let rest = log.drop_last();
        let t = log.last().0;
        let c = log.last().1;
        assert(log =~= rest.push((t, c)));
        assert forall|j: int, k: int|
            0 <= j < rest.len() && 1 <= k <= rest[j].0.len() implies has_path(
            nodes,
            #[trigger] rest[j].0.take(k),
        ) by {
            assert(rest[j] == log[j]);
            assert(has_path(nodes, log[j].0.take(k)));
        }
        assert forall|k: int| 0 <= k < rest.len() implies valid_transaction(
            (#[trigger] rest[k]).0,
        ) by {
            assert(rest[k] == log[k]);
        }
        lemma_node_sum(nodes, lists, rest, item, pred);
        lemma_sum_push(nodes, list, rest, t, c, pred);
        assert(log[log.len() - 1] == log.last());
        assert forall|k: int| 1 <= k <= t.len() implies has_path(nodes, #[trigger] t.take(k)) by {
            assert(has_path(nodes, log[log.len() - 1].0.take(k)));
        }
        lemma_hit_is_before(nodes, lists, item, t, pred);
        lemma_one_hit(nodes, list, item, t, pred);
        if t.contains(item) {
            lemma_measure_push(conditional(rest, item), (before(t, item), c), pred);
        }
        let h = hits(nodes, list, t, pred);
        assert(c * h == if h == 1 {
            c as int
        } else {
            0
        }) by (nonlinear_arith)
            requires
                h == 0 || h == 1,
        ;
        assert(node_sum(nodes, list, log, pred) == node_sum(nodes, list, rest, pred) + c * h);
        assert(h == 1 <==> (t.contains(item) && pred(before(t, item))));
        assert(measure(conditional(log, item), pred) == measure(conditional(rest, item), pred)
            + if t.contains(item) && pred(before(t, item)) {
            c as int
        } else {
            0
        });
    }
}

proof fn lemma_sum_empty(nodes: Seq<FPNode>, list: Seq<usize>, pred: spec_fn(Seq<Item>) -> bool)
    ensures
        node_sum(nodes, list, Seq::empty(), pred) == 0,
    decreases list.len(),
{
    if list.len() > 0 {
        lemma_sum_empty(nodes, list.drop_last(), pred);
    }
}

/// The dataset of the nodes that hold `item` measures as the conditional
/// dataset of `item` does, and each transaction of the one is a
/// transaction of the other.
proof fn lemma_base_is_conditional(
    nodes: Seq<FPNode>,
    lists: Seq<Vec<usize>>,
    log: Log,
    item: Item,
)
    requires
        shaped(nodes),
        paths_valid(nodes),
        listed_ok(nodes, lists),
        covered(nodes, log),
        valid_log(log),
        nodes_counted(nodes, log, Seq::empty(), 0),
        total_weight(log) <= u32::MAX,
    ensures
        forall|pred: spec_fn(Seq<Item>) -> bool|
            #[trigger] measure(base(nodes, nodes_of(lists, item)), pred) == measure(
                conditional(log, item),
                pred,
            ),
        valid_log(base(nodes, nodes_of(lists, item))),
        total_weight(base(nodes, nodes_of(lists, item))) <= u32::MAX,
        forall|k: int|
            0 <= k < conditional(log, item).len() ==> exists|m: int|
                0 <= m < base(nodes, nodes_of(lists, item)).len() && (#[trigger] base(
                    nodes,
                    nodes_of(lists, item),
                )[m]).0 == (#[trigger] conditional(log, item)[k]).0,
{
    let list = nodes_of(lists, item);
    let b = base(nodes, list);
    let cond = conditional(log, item);
    assert forall|k: int| 0 <= k < list.len() implies 1 <= #[trigger] list[k] < nodes.len() by {
        assert(list_at(lists, item.id as int, k) == list[k]);
    }
    assert forall|pred: spec_fn(Seq<Item>) -> bool| #[trigger]
        measure(b, pred) == measure(cond, pred) by {
        lemma_base_sum(nodes, list, log, pred);
        lemma_node_sum(nodes, lists, log, item, pred);
    }
    assert forall|k: int| 0 <= k < b.len() implies valid_transaction((#[trigger] b[k]).0) by {
        let n = list[k] as int;
        lemma_path(nodes, n);
        let p = path_in(nodes, n);
        assert(p.no_duplicates());
        let a = above(nodes, n);
        assert forall|x: int, y: int| 0 <= x < a.len() && 0 <= y < a.len() && x != y implies a[x]
            != a[y] by {
            assert(a[x] == p[x] && a[y] == p[y]);
        }
        lemma_no_null(nodes, nodes[n].parent as int);
    }
    lemma_conditional_valid(log, item);
    lemma_measure_bounds(log, has_item(item));
    assert(measure(b, any()) == measure(cond, any()));
    assert forall|k: int| 0 <= k < cond.len() implies exists|m: int|
        0 <= m < b.len() && (#[trigger] b[m]).0 == (#[trigger] cond[k]).0 by {
        let j = lemma_conditional_source(log, item, k);
        let t = log[j].0;
        assert forall|i: int| 1 <= i <= t.len() implies has_path(nodes, #[trigger] t.take(i)) by {
            assert(has_path(nodes, log[j].0.take(i)));
        }
        lemma_hit_is_before(nodes, lists, item, t, any());
        let m = choose|m: int|
            0 <= m < list.len() && above(nodes, #[trigger] list[m] as int) == before(t, item);
        assert(b[m].0 == cond[k].0);
    }
}

/// No path holds the null item.
proof fn lemma_no_null(nodes: Seq<FPNode>, n: int)
    requires
        shaped(nodes),
        0 <= n < nodes.len(),
    ensures
        forall|k: int| 0 <= k < path_in(nodes, n).len() ==> (#[trigger] path_in(nodes, n)[k]).id != 0,
    decreases n,
{
    if n > 0 {
        let parent = nodes[n].parent as int;
        lemma_no_null(nodes, parent);
        let p = path_in(nodes, n);
        let q = path_in(nodes, parent);
        assert forall|k: int| 0 <= k < p.len() implies (#[trigger] p[k]).id != 0 by {
            if k < q.len() {
                assert(p[k] == q[k]);
            }
        }
    }
}

/// A tree that is right for one dataset is right for another that
/// measures the same and whose transactions are transactions of the first.
proof fn lemma_same_measures(
    nodes: Seq<FPNode>,
    counter: ItemCounter,
    first: Log,
    second: Log,
)
    requires
        shaped(nodes),
        covered(nodes, first),
        nodes_counted(nodes, first, Seq::empty(), 0),
        items_counted(counter, first, Seq::empty(), 0),
        forall|pred: spec_fn(Seq<Item>) -> bool|
            #[trigger] measure(first, pred) == measure(second, pred),
        forall|k: int|
            0 <= k < second.len() ==> exists|m: int|
                0 <= m < first.len() && (#[trigger] first[m]).0 == (#[trigger] second[k]).0,
    ensures
        covered(nodes, second),
        nodes_counted(nodes, second, Seq::empty(), 0),
        items_counted(counter, second, Seq::empty(), 0),
        total_weight(second) == total_weight(first),
{
    assert forall|j: int, k: int|
        0 <= j < second.len() && 1 <= k <= second[j].0.len() implies has_path(
        nodes,
        #[trigger] second[j].0.take(k),
    ) by {
        let m = choose|m: int|
            0 <= m < first.len() && (#[trigger] first[m]).0 == (#[trigger] second[j]).0;
        assert(has_path(nodes, first[m].0.take(k)));
    }
    assert forall|n: int| 1 <= n < nodes.len() implies (#[trigger] nodes[n]).count
        == weight_through(second, path_in(nodes, n)) + if path_in(nodes, n).is_prefix_of(
        Seq::<Item>::empty(),
    ) {
        0int
    } else {
        0
    } by {
        assert(measure(first, passes(path_in(nodes, n))) == measure(
            second,
            passes(path_in(nodes, n)),
        ));
    }
    assert forall|item: Item|
        #[trigger] counter.count(item) == item_weight(second, item) + if Seq::<Item>::empty().contains(
            item,
        ) {
            0int
        } else {
            0
        } by {
        assert(measure(first, has_item(item)) == measure(second, has_item(item)));
    }
    assert(measure(first, any()) == measure(second, any()));
}

/// The weight of a dataset up to a place is at most the weight of all.
proof fn lemma_weight_upto(log: Log, k: int)
    requires
        0 <= k < log.len(),
    ensures
        total_weight(log.take(k)) + log[k].1 == total_weight(log.take(k + 1)),
        total_weight(log.take(k + 1)) <= total_weight(log),
        log.take(k).push(log[k]) == log.take(k + 1),
    decreases log.len() - k,
{
    assert(log.take(k).push(log[k]) =~= log.take(k + 1));
    lemma_measure_push(log.take(k), log[k], any());
    if k + 1 < log.len() {
        lemma_weight_upto(log, k + 1);
    } else {
        assert(log.take(k + 1) =~= log);
    }
}

impl View for FPTree {
    type V = Log;

    closed spec fn view(&self) -> Log {
        self.log@
    }
}

impl FPTree {
    /// How many nodes the tree has, the root among them.
    pub closed spec fn node_count(&self) -> nat {
        self.nodes@.len()
    }

    /// The item of node `n`.
    pub closed spec fn node_item(&self, n: int) -> Item {
        self.nodes@[n].item
    }

    /// The count of node `n`.
    pub closed spec fn node_weight(&self, n: int) -> u32 {
        self.nodes@[n].count
    }

    /// The parent of node `n`.
    pub closed spec fn node_parent(&self, n: int) -> int {
        self.nodes@[n].parent as int
    }

    /// The children of node `n`.
    pub closed spec fn node_children(&self, n: int) -> Seq<usize> {
        self.nodes@[n].children@
    }

    /// The items on the way from the root to node `n`, the root left out.
    pub closed spec fn node_path(&self, n: int) -> Seq<Item> {
        path_in(self.nodes@, n)
    }

    /// The frequency that the tree keeps for `item`.
    pub closed spec fn item_frequency(&self, item: Item) -> u32 {
        self.item_count.count(item)
    }

    spec fn built(&self) -> bool {
        &&& shaped(self.nodes@)
        &&& paths_valid(self.nodes@)
        &&& listed_ok(self.nodes@, self.item_lists@)
        &&& covered(self.nodes@, self.log@)
        &&& valid_log(self.log@)
        &&& total_weight(self.log@) <= u32::MAX
    }

    /// The tree is a prefix tree of the dataset it was given: the links
    /// agree, no node has two children with one item, and each count is
    /// the weight of the transactions that pass.
    pub closed spec fn wf(&self) -> bool {
        &&& self.built()
        &&& nodes_counted(self.nodes@, self.log@, Seq::empty(), 0)
        &&& items_counted(self.item_count, self.log@, Seq::empty(), 0)
    }

    /// A tree of the root alone.
    pub fn new() -> (tree: FPTree)
        ensures
            tree.wf(),
            tree@ == Seq::<(Seq<Item>, u32)>::empty(),
            tree.node_count() == 1,
    {
        let mut nodes: Vec<FPNode> = Vec::new();
        nodes.push(
            FPNode { id: 0, item: Item::null(), count: 0, children: Vec::new(), parent: 0 },
        );
        let tree = FPTree {
            nodes,
            item_count: ItemCounter::new(),
            item_lists: Vec::new(),
            log: Ghost(Seq::empty()),
        };
        proof {
            assert forall|item: Item| #[trigger]
                tree.item_count.count(item) == item_weight(tree.log@, item) by {}
        }
        tree
    }

    fn add_to_item_list(&mut self, item: Item, id: usize)
        requires
            item.id != 0,
        ensures
            final(self).nodes == old(self).nodes,
            final(self).item_count == old(self).item_count,
            final(self).log == old(self).log,
            final(self).item_lists@.len() >= old(self).item_lists@.len(),
            item.id < final(self).item_lists@.len(),
            forall|i: int|
                0 <= i < final(self).item_lists@.len() ==> (#[trigger] final(self).item_lists@[i])@ == if i == item.id {
                    (if i < old(self).item_lists@.len() {
                        old(self).item_lists@[i]@
                    } else {
                        Seq::empty()
                    }).push(id)
                } else if i < old(self).item_lists@.len() {
                    old(self).item_lists@[i]@
                } else {
                    Seq::empty()
                },
    {
        let index = item.as_index();
        while self.item_lists.len() <= index
            invariant
                self.nodes == old(self).nodes,
                self.item_count == old(self).item_count,
                self.log == old(self).log,
                self.item_lists@.len() >= old(self).item_lists@.len(),
                forall|i: int|
                    0 <= i < self.item_lists@.len() ==> (#[trigger] self.item_lists@[i])@ == if i
                        < old(self).item_lists@.len() {
                        old(self).item_lists@[i]@
                    } else {
                        Seq::empty()
                    },
            decreases index + 1 - self.item_lists.len(),
        {
            self.item_lists.push(Vec::new());
        }
        self.item_lists[index].push(id);
    }

    /// A new node under `parent`; builds no count.
    fn push_node(&mut self, parent: usize, item: Item) -> (id: usize)
        requires
            shaped(old(self).nodes@),
            listed_ok(old(self).nodes@, old(self).item_lists@),
            parent < old(self).nodes@.len(),
            item.id != 0,
            forall|k: int|
                0 <= k < old(self).nodes@[parent as int].children@.len() ==> old(self).nodes@[#[trigger] child_at(old(self).nodes@, parent as int, k)].item != item,
        ensures
            shaped(final(self).nodes@),
            listed_ok(final(self).nodes@, final(self).item_lists@),
            final(self).item_count == old(self).item_count,
            final(self).log == old(self).log,
            id == old(self).nodes@.len(),
            final(self).nodes@.len() == old(self).nodes@.len() + 1,
            final(self).nodes@[id as int].item == item,
            final(self).nodes@[id as int].parent == parent,
            final(self).nodes@[id as int].count == 0,
            final(self).nodes@[id as int].children@ == Seq::<usize>::empty(),
            final(self).nodes@[parent as int].children@ == old(self).nodes@[parent as int].children@.push(
                id,
            ),
            forall|k: int|
                0 <= k < old(self).nodes@.len() && k != parent ==> (#[trigger] final(self).nodes@[k]).children@
                    == old(self).nodes@[k].children@,
            forall|k: int|
                0 <= k < old(self).nodes@.len() ==> (#[trigger] final(self).nodes@[k]).item == old(self).nodes@[k].item && final(self).nodes@[k].parent == old(self).nodes@[k].parent
                    && final(self).nodes@[k].count == old(self).nodes@[k].count,
            forall|i: int|
                0 <= i < old(self).item_lists@.len() && i != item.id ==> (#[trigger] final(self).item_lists@[i])@ == old(self).item_lists@[i]@,
            final(self).item_lists@.len() >= old(self).item_lists@.len(),
            final(self).item_lists@[item.id as int]@ == (if item.id < old(self).item_lists@.len() {
                old(self).item_lists@[item.id as int]@
            } else {
                Seq::empty()
            }).push(id),
            forall|i: int|
                old(self).item_lists@.len() <= i < final(self).item_lists@.len() && i != item.id
                    ==> (#[trigger] final(self).item_lists@[i])@ == Seq::<usize>::empty(),
    {
        let id = self.nodes.len();
        let ghost before = self.nodes@;
        let ghost lists_before = self.item_lists@;
        self.nodes.push(FPNode { id, item, count: 0, children: Vec::new(), parent });
        self.nodes[parent].children.push(id);
        let ghost after = self.nodes@;
        self.add_to_item_list(item, id);
        proof {
            let lists = self.item_lists@;
            assert(after.len() == before.len() + 1);
            assert forall|n: int| 0 <= n < before.len() && n != parent implies #[trigger] after[n]
                == before[n] by {}
            assert(after[parent as int].children@ == before[parent as int].children@.push(id));
            assert forall|n: int, k: int|
                0 <= n < after.len() && 0 <= k < after[n].children@.len() implies n
                < #[trigger] child_at(after, n, k) < after.len() && after[child_at(
                after,
                n,
                k,
            )].parent == n by {
                if n == parent {
                    if k < before[n].children@.len() {
                        assert(child_at(after, n, k) == child_at(before, n, k));
                    }
                } else if n < before.len() {
                    assert(child_at(after, n, k) == child_at(before, n, k));
                }
            }
            assert forall|n: int, k1: int, k2: int|
                0 <= n < after.len() && 0 <= k1 < k2 < after[n].children@.len() implies after[#[trigger] child_at(
                after,
                n,
                k1,
            )].item != after[#[trigger] child_at(after, n, k2)].item by {
                if n == parent {
                    assert(child_at(after, n, k1) == child_at(before, n, k1));
                    if k2 < before[n].children@.len() {
                        assert(child_at(after, n, k2) == child_at(before, n, k2));
                    }
                } else if n < before.len() {
                    assert(child_at(after, n, k1) == child_at(before, n, k1));
                    assert(child_at(after, n, k2) == child_at(before, n, k2));
                }
            }
            assert forall|n: int| 1 <= n < after.len() implies (#[trigger] after[n]).parent < n
                && after[n].item.id != 0 && after[after[n].parent as int].children@.contains(
                n as usize,
            ) by {
                if n < before.len() {
                    let p = before[n].parent as int;
                    let k = choose|k: int|
                        0 <= k < before[p].children@.len() && before[p].children@[k] == n as usize;
                    assert(after[p].children@[k] == n as usize);
                } else {
                    assert(after[parent as int].children@[before[parent as int].children@.len() as int]
                        == id);
                }
            }
            assert forall|i: int, k: int|
                0 <= i < lists.len() && 0 <= k < lists[i]@.len() implies 1 <= #[trigger] list_at(
                lists,
                i,
                k,
            ) < after.len() && after[list_at(lists, i, k)].item.id == i by {
                if i < lists_before.len() && k < lists_before[i]@.len() {
                    assert(list_at(lists, i, k) == list_at(lists_before, i, k));
                }
            }
            assert forall|i: int| 0 <= i < lists.len() implies (#[trigger] lists[i])@.no_duplicates() by {
                if i == item.id && i < lists_before.len() {
                    let l0 = lists_before[i]@;
                    assert forall|a: int| 0 <= a < l0.len() implies l0[a] != id by {
                        assert(list_at(lists_before, i, a) < before.len());
                    }
                } else if i < lists_before.len() {
                    assert(lists[i]@ == lists_before[i]@);
                }
            }
            assert forall|n: int| 1 <= n < after.len() implies (#[trigger] after[n]).item.id
                < lists.len() && lists[after[n].item.id as int]@.contains(n as usize) by {
                if n < before.len() {
                    let i = before[n].item.id as int;
                    let k = choose|k: int|
                        0 <= k < lists_before[i]@.len() && lists_before[i]@[k] == n as usize;
                    assert(lists[i]@[k] == n as usize);
                } else {
                    let l = lists[item.id as int]@;
                    assert(l[l.len() - 1] == id);
                }
            }
        }
        id
    }

    /// The child of node `id` that holds `item`, if there is one.
    pub fn child_of(&self, id: usize, item: Item) -> (child: Option<usize>)
        requires
            self.wf(),
            id < self.node_count(),
        ensures
            match child {
                Some(c) => self.node_children(id as int).contains(c) && c < self.node_count()
                    && self.node_item(c as int) == item && self.node_parent(c as int) == id,
                None => forall|k: int|
                    0 <= k < self.node_children(id as int).len() ==> self.node_item(
                        #[trigger] self.node_children(id as int)[k] as int,
                    ) != item,
            },
    {
        let child = self.find_child(id, item);
        proof {
            if child is None {
                assert forall|k: int| 0 <= k < self.node_children(id as int).len() implies self.node_item(
                    #[trigger] self.node_children(id as int)[k] as int,
                ) != item by {
                    assert(child_at(self.nodes@, id as int, k) == self.node_children(id as int)[k]);
                }
            }
        }
        child
    }

    /// What a well-formed tree holds is a dataset of valid transactions
    /// whose whole weight fits the type of a count.
    pub proof fn lemma_dataset_valid(&self)
        requires
            self.wf(),
        ensures
            valid_log(self@),
            total_weight(self@) <= u32::MAX,
    {
    }

    /// In a well-formed tree no node has two children with the same item,
    /// and the count of each node is the weight of the transactions that
    /// pass through it.
    pub proof fn lemma_counts_and_children(&self)
        requires
            self.wf(),
        ensures
            forall|n: int, k1: int, k2: int|
                0 <= n < self.node_count() && 0 <= k1 < k2 < self.node_children(n).len()
                    ==> self.node_item(#[trigger] self.node_children(n)[k1] as int)
                    != self.node_item(#[trigger] self.node_children(n)[k2] as int),
            forall|n: int|
                1 <= n < self.node_count() ==> #[trigger] self.node_weight(n) == weight_through(
                    self@,
                    self.node_path(n),
                ),
            forall|item: Item| #[trigger] self.item_frequency(item) == item_weight(self@, item),
    {
        let nodes = self.nodes@;
        assert forall|n: int, k1: int, k2: int|
            0 <= n < self.node_count() && 0 <= k1 < k2 < self.node_children(
                n,
            ).len() implies self.node_item(#[trigger] self.node_children(n)[k1] as int)
            != self.node_item(#[trigger] self.node_children(n)[k2] as int) by {
            assert(child_at(nodes, n, k1) == self.node_children(n)[k1]);
            assert(child_at(nodes, n, k2) == self.node_children(n)[k2]);
        }
        assert forall|n: int| 1 <= n < self.node_count() implies #[trigger] self.node_weight(n)
            == weight_through(self@, self.node_path(n)) by {
            lemma_path(nodes, n);
            assert(nodes[n].count == weight_through(self.log@, path_in(nodes, n)) + if path_in(
                nodes,
                n,
            ).is_prefix_of(Seq::<Item>::empty()) {
                0int
            } else {
                0
            });
        }
    }

    /// The frequencies of the items in the tree.
    pub fn item_count(&self) -> (counter: &ItemCounter)
        requires
            self.wf(),
        ensures
            forall|item: Item| #[trigger] counter.count(item) == item_weight(self@, item),
            forall|item: Item| counter.count(item) == self.item_frequency(item),
    {
        &self.item_count
    }

    /// Adds a node that holds `item` under `parent`, which has no child
    /// with that item yet. The node lies on no transaction: its count is 0.
    pub fn add_node(&mut self, parent: usize, item: Item) -> (id: usize)
        requires
            old(self).wf(),
            parent < old(self).node_count(),
            item.id != 0,
            !old(self).node_path(parent as int).contains(item),
            forall|k: int|
                0 <= k < old(self).node_children(parent as int).len() ==> old(self).node_item(
                    #[trigger] old(self).node_children(parent as int)[k] as int,
                ) != item,
        ensures
            final(self).wf(),
            final(self)@ == old(self)@,
            id == old(self).node_count(),
            final(self).node_count() == old(self).node_count() + 1,
            final(self).node_item(id as int) == item,
            final(self).node_parent(id as int) == parent,
            final(self).node_weight(id as int) == 0,
            final(self).node_path(id as int) == old(self).node_path(parent as int).push(item),
            final(self).node_children(id as int) == Seq::<usize>::empty(),
            final(self).node_children(parent as int) == old(self).node_children(
                parent as int,
            ).push(id),
            forall|n: int|
                0 <= n < old(self).node_count() && n != parent ==> #[trigger] final(self).node_children(n)
                    == old(self).node_children(n),
            forall|n: int|
                0 <= n < old(self).node_count() ==> final(self).node_item(n) == old(self).node_item(
                    n,
                ) && final(self).node_parent(n) == old(self).node_parent(n) && final(self).node_weight(n) == old(self).node_weight(n) && #[trigger] final(self).node_path(n)
                    == old(self).node_path(n),
    {
        let ghost before = self.nodes@;
        proof {
            assert forall|k: int| 0 <= k < before[parent as int].children@.len() implies before[#[trigger] child_at(
                before,
                parent as int,
                k,
            )].item != item by {
                assert(old(self).node_children(parent as int)[k] == child_at(
                    before,
                    parent as int,
                    k,
                ));
            }
            if parent > 0 {
                lemma_path(before, parent as int);
            }
        }
        let id = self.push_node(parent, item);
        proof {
            assert(grown(before, self.nodes@));
            lemma_node_made(before, self.nodes@, self.log@, Seq::empty(), 0, parent as int, item);
            lemma_paths_persist(before, self.nodes@);
        }
        id
    }

    /// Inserts one transaction with its weight: the nodes along its path
    /// take the weight, new ones being made where the path ends, and so do
    /// the frequencies of its items.
    pub fn insert(&mut self, transaction: &[Item], count: u32)
        requires
            old(self).wf(),
            valid_transaction(transaction@),
            total_weight(old(self)@) + count <= u32::MAX,
        ensures
            final(self).wf(),
            final(self)@ == old(self)@.push((transaction@, count)),
            final(self).node_count() >= old(self).node_count(),
            forall|n: int|
                0 <= n < old(self).node_count() ==> final(self).node_item(n) == old(self).node_item(
                    n,
                ) && final(self).node_parent(n) == old(self).node_parent(n) && #[trigger] final(self).node_path(n) == old(self).node_path(n),
            forall|n: int|
                1 <= n < old(self).node_count() ==> #[trigger] final(self).node_weight(n) == old(self).node_weight(n) + if old(self).node_path(n).is_prefix_of(transaction@) {
                    count as int
                } else {
                    0
                },
            forall|n: int|
                old(self).node_count() <= n < final(self).node_count() ==> (#[trigger] final(self).node_path(n)).is_prefix_of(transaction@) && final(self).node_weight(n) == count,
            forall|a: int, b: int|
                old(self).node_count() <= a < b < final(self).node_count() ==> final(self).node_path(a).len() < final(self).node_path(b).len(),
    {
        let ghost log = self.log@;
        let ghost t = transaction@;
        let ghost nodes0 = self.nodes@;
        let mut id: usize = 0;
        let mut j: usize = 0;
        proof {
            assert(t.take(0) =~= Seq::<Item>::empty());
        }
        while j < transaction.len()
            invariant
                t == transaction@,
                valid_transaction(t),
                self.log@ == log,
                valid_log(log),
                total_weight(log) + count <= u32::MAX,
                j <= t.len(),
                shaped(self.nodes@),
                paths_valid(self.nodes@),
                listed_ok(self.nodes@, self.item_lists@),
                covered(self.nodes@, log),
                nodes_counted(self.nodes@, log, t.take(j as int), count as int),
                items_counted(self.item_count, log, t.take(j as int), count as int),
                id < self.nodes@.len(),
                path_in(self.nodes@, id as int) == t.take(j as int),
                forall|k: int| 1 <= k <= j ==> has_path(self.nodes@, #[trigger] t.take(k)),
                grown(nodes0, self.nodes@),
                forall|n: int|
                    nodes0.len() <= n < self.nodes@.len() ==> (#[trigger] path_in(
                        self.nodes@,
                        n,
                    )).is_prefix_of(t.take(j as int)),
                forall|a: int, b: int|
                    nodes0.len() <= a < b < self.nodes@.len() ==> path_in(self.nodes@, a).len()
                        < path_in(self.nodes@, b).len(),
            decreases t.len() - j,
        {
            let item = transaction[j];
            let ghost counter_before = self.item_count;
            let ghost nodes_before = self.nodes@;
            proof {
                lemma_item_room(self.item_count, log, t, j as int, count as int);
                lemma_prefix_step(t.take(j as int), t, j as int);
            }
            self.item_count.add(&item, count);
            proof {
                lemma_item_step(counter_before, self.item_count, log, t, j as int, count as int);
            }
            let child = match self.find_child(id, item) {
                Some(c) => {
                    proof {
                        lemma_child_found(
                            self.nodes@,
                            log,
                            t.take(j as int),
                            count as int,
                            id as int,
                            c as int,
                        );
                    }
                    c
                },
                None => {
                    let c = self.push_node(id, item);
                    proof {
                        assert(grown(nodes_before, self.nodes@));
                        assert(!t.take(j + 1).is_prefix_of(t.take(j as int)));
                        assert(!t.take(j as int).contains(item)) by {
                            if t.take(j as int).contains(item) {
                                let k = choose|k: int|
                                    0 <= k < j && t.take(j as int)[k] == item;
                                assert(t[k] == t[j as int]);
                            }
                        }
                        lemma_node_made(
                            nodes_before,
                            self.nodes@,
                            log,
                            t.take(j as int),
                            count as int,
                            id as int,
                            item,
                        );
                        lemma_measure_bounds(log, any());
                    }
                    c
                },
            };
            let ghost nodes_mid = self.nodes@;
            proof {
                lemma_paths_persist(nodes_before, nodes_mid);
            }
            let bumped = self.nodes[child].count + count;
            self.nodes[child].count = bumped;
            proof {
                lemma_node_bumped(
                    nodes_mid,
                    self.nodes@,
                    self.item_lists@,
                    log,
                    t,
                    j as int,
                    count as int,
                    child as int,
                );
                lemma_paths_persist(nodes_mid, self.nodes@);
                assert(grown(nodes0, self.nodes@));
                assert forall|n: int| nodes0.len() <= n < self.nodes@.len() implies (
                #[trigger] path_in(self.nodes@, n)).is_prefix_of(t.take(j + 1)) by {
                    if n < nodes_before.len() {
                        assert(path_in(nodes_mid, n) == path_in(nodes_before, n));
                        assert(path_in(self.nodes@, n) == path_in(nodes_mid, n));
                        lemma_prefix_step(path_in(nodes_before, n), t, j as int);
                    } else {
                        assert(path_in(self.nodes@, n) == path_in(nodes_mid, n));
                        lemma_prefix_step(path_in(nodes_mid, n), t, j as int);
                    }
                }
                assert forall|a: int, b: int|
                    nodes0.len() <= a < b < self.nodes@.len() implies path_in(self.nodes@, a).len()
                    < path_in(self.nodes@, b).len() by {
                    assert(path_in(self.nodes@, a) == path_in(nodes_mid, a));
                    assert(path_in(self.nodes@, b) == path_in(nodes_mid, b));
                    if b < nodes_before.len() {
                        assert(path_in(nodes_mid, a) == path_in(nodes_before, a));
                        assert(path_in(nodes_mid, b) == path_in(nodes_before, b));
                    } else {
                        assert(path_in(nodes_mid, a) == path_in(nodes_before, a));
                        lemma_prefix_step(path_in(nodes_before, a), t, j as int);
                    }
                }
                assert(path_node(self.nodes@, t.take(j + 1), child as int));
                assert forall|k: int| 1 <= k <= j + 1 implies has_path(
                    self.nodes@,
                    #[trigger] t.take(k),
                ) by {
                    if k <= j {
                        assert(has_path(nodes_before, t.take(k)));
                    }
                }
            }
            id = child;
            j += 1;
        }
        proof {
            assert(t.take(t.len() as int) =~= t);
            lemma_transaction_done(self.nodes@, self.item_count, log, t, count);
            lemma_paths_persist(nodes0, self.nodes@);
            let nodes = self.nodes@;
            let after = log.push((t, count));
            assert forall|n: int| 1 <= n < nodes0.len() implies (#[trigger] nodes[n]).count
                == nodes0[n].count + if path_in(nodes0, n).is_prefix_of(t) {
                count as int
            } else {
                0
            } by {
                lemma_path(nodes0, n);
                lemma_measure_push(log, (t, count), passes(path_in(nodes0, n)));
                assert(path_in(nodes, n) == path_in(nodes0, n));
                assert(nodes0[n].count == weight_through(log, path_in(nodes0, n)) + if path_in(
                    nodes0,
                    n,
                ).is_prefix_of(Seq::<Item>::empty()) {
                    0int
                } else {
                    0
                });
                assert(nodes[n].count == weight_through(after, path_in(nodes, n)) + if path_in(
                    nodes,
                    n,
                ).is_prefix_of(Seq::<Item>::empty()) {
                    0int
                } else {
                    0
                });
            }
            assert forall|n: int| nodes0.len() <= n < nodes.len() implies (#[trigger] nodes[n]).count
                == count by {
                let path = path_in(nodes, n);
                lemma_path(nodes, n);
                lemma_measure_push(log, (t, count), passes(path));
                if weight_through(log, path) > 0 {
                    let w = lemma_measure_witness(log, passes(path));
                    assert(log[w].0.take(path.len() as int) =~= path);
                    assert(has_path(nodes0, log[w].0.take(path.len() as int)));
                    let m = choose|m: int| path_node(nodes0, path, m);
                    assert(path_in(nodes, m) == path_in(nodes0, m));
                    lemma_path_distinct(nodes, m, n);
                }
                lemma_measure_bounds(log, passes(path));
                assert(nodes[n].count == weight_through(after, path) + if path.is_prefix_of(
                    Seq::<Item>::empty(),
                ) {
                    0int
                } else {
                    0
                });
            }
        }
        self.log = Ghost(log.push((t, count)));
    }

    /// The items on the way from the root to the parent of `node_id`.
    fn path_from_root_to_excluding(&self, node_id: usize) -> (path: Vec<Item>)
        requires
            shaped(self.nodes@),
            1 <= node_id < self.nodes@.len(),
        ensures
            path@ == above(self.nodes@, node_id as int),
    {
        let mut up: Vec<Item> = Vec::new();
        let start = self.nodes[node_id].parent;
        let mut id = start;
        let ghost mut tail: Seq<Item> = Seq::empty();
        proof {
            lemma_path(self.nodes@, node_id as int);
        }
        while id != 0
            invariant
                shaped(self.nodes@),
                id < self.nodes@.len(),
                path_in(self.nodes@, start as int) == path_in(self.nodes@, id as int) + tail,
                up@.len() == tail.len(),
                forall|k: int| 0 <= k < up@.len() ==> up@[k] == tail[tail.len() - 1 - k],
            decreases id,
        {
            let item = self.nodes[id].item;
            proof {
                lemma_path(self.nodes@, id as int);
                let parent = self.nodes@[id as int].parent as int;
                assert(path_in(self.nodes@, parent).push(item) + tail =~= path_in(
                    self.nodes@,
                    parent,
                ) + (seq![item] + tail));
                tail = seq![item] + tail;
            }
            up.push(item);
            id = self.nodes[id].parent;
        }
        let mut path: Vec<Item> = Vec::new();
        let mut k: usize = up.len();
        while k > 0
            invariant
                k <= up@.len(),
                up@.len() == tail.len(),
                forall|j: int| 0 <= j < up@.len() ==> up@[j] == tail[tail.len() - 1 - j],
                path@.len() == up@.len() - k,
                forall|j: int| 0 <= j < path@.len() ==> path@[j] == tail[j],
            decreases k,
        {
            k -= 1;
            path.push(up[k]);
        }
        proof {
            assert(path_in(self.nodes@, 0).len() == 0);
            assert(path@ =~= tail);
            assert(path_in(self.nodes@, 0) + tail =~= tail);
        }
        path
    }

    /// The conditional tree of `item`: for each node that holds `item`, the
    /// path from the root to its parent is inserted with the count of the
    /// node. The tree that comes out is the tree of the conditional
    /// dataset of `item`, in which `item` does not occur.
    pub fn construct_conditional_tree(&self, item: Item) -> (tree: FPTree)
        requires
            self.wf(),
        ensures
            tree.wf(),
            tree@ == conditional(self@, item),
    {
        let mut tree = FPTree::new();
        let index = item.as_index();
        let ghost list = nodes_of(self.item_lists@, item);
        let ghost b = base(self.nodes@, list);
        proof {
            lemma_base_is_conditional(self.nodes@, self.item_lists@, self.log@, item);
            assert(b.take(0) =~= Seq::<(Seq<Item>, u32)>::empty());
        }
        if index < self.item_lists.len() {
            let mut k: usize = 0;
            while k < self.item_lists[index].len()
                invariant
                    index == item.id,
                    index < self.item_lists@.len(),
                    list == self.item_lists@[index as int]@,
                    b == base(self.nodes@, list),
                    shaped(self.nodes@),
                    listed_ok(self.nodes@, self.item_lists@),
                    valid_log(b),
                    total_weight(b) <= u32::MAX,
                    k <= list.len(),
                    tree.wf(),
                    tree@ == b.take(k as int),
                decreases list.len() - k,
            {
                let n = self.item_lists[index][k];
                proof {
                    assert(list_at(self.item_lists@, index as int, k as int) == n);
                    lemma_weight_upto(b, k as int);
                }
                let path = self.path_from_root_to_excluding(n);
                let count = self.nodes[n].count;
                tree.insert(path.as_slice(), count);
                k += 1;
            }
            proof {
                assert(b.take(list.len() as int) =~= b);
            }
        } else {
            proof {
                assert(b =~= Seq::<(Seq<Item>, u32)>::empty());
            }
        }
        proof {
            lemma_same_measures(
                tree.nodes@,
                tree.item_count,
                b,
                conditional(self.log@, item),
            );
            lemma_conditional_valid(self.log@, item);
        }
        tree.log = Ghost(conditional(self.log@, item));
        tree
    }

    fn find_child(&self, id: usize, item: Item) -> (child: Option<usize>)
        requires
            shaped(self.nodes@),
            id < self.nodes@.len(),
        ensures
            match child {
                Some(c) => self.nodes@[id as int].children@.contains(c) && c < self.nodes@.len()
                    && self.nodes@[c as int].item == item && self.nodes@[c as int].parent == id,
                None => forall|k: int|
                    0 <= k < self.nodes@[id as int].children@.len() ==> self.nodes@[#[trigger] child_at(
                        self.nodes@,
                        id as int,
                        k,
                    )].item != item,
            },
    {
        let mut k: usize = 0;
        while k < self.nodes[id].children.len()
            invariant
                shaped(self.nodes@),
                id < self.nodes@.len(),
                k <= self.nodes@[id as int].children@.len(),
                forall|j: int|
                    0 <= j < k ==> self.nodes@[#[trigger] child_at(self.nodes@, id as int, j)].item
                        != item,
            decreases self.nodes@[id as int].children@.len() - k,
        {
            let c = self.nodes[id].children[k];
            assert(c == child_at(self.nodes@, id as int, k as int));
            if self.nodes[c].item.id == item.id {
                return Some(c);
            }
            k += 1;
        }
        None
    }
}

} // verus!
