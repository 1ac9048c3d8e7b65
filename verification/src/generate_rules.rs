use vstd::prelude::*;
use fnv::FnvHashMap;
use rayon::prelude::{IntoParallelRefIterator, ParallelIterator};
use crate::item::Item;
use crate::itemset::ItemSet;
use crate::ratio::Ratio;
use crate::rule::Rule;
use crate::vec_sets::{
    agree_before, ascending, comes_before, lemma_ascending_unique, lemma_lex_one_way,
    lemma_subset_len, lemma_without, lex_less, prefix_match_len, split_out, split_out_item,
    subset_of, union, without,
};

verus! {

/// The table of supports: for an itemset, the number of transactions that
/// hold it.
pub type ItemsetSupport = FnvHashMap<Vec<Item>, u32>;

/// What a table of supports holds.
pub uninterp spec fn support_entries(table: FnvHashMap<Vec<Item>, u32>) -> Map<Seq<Item>, u32>;

/// The table that knows no itemset.
pub open spec fn no_support() -> Map<Seq<Item>, u32> {
    Map::empty()
}

/// `FnvHashMap::default`. Trusted: the new table is empty.
#[verifier::external_body]
fn support_table_new() -> (table: ItemsetSupport)
    ensures
        support_entries(table) == no_support(),
{
    FnvHashMap::default()
}

/// `HashMap::insert`. Trusted: the table then maps `items` to `count`, and
/// every other itemset to what it mapped to before.
#[verifier::external_body]
fn support_table_insert(table: &mut ItemsetSupport, items: Vec<Item>, count: u32)
    ensures
        support_entries(*final(table)) == support_entries(*old(table)).insert(items@, count),
{
    table.insert(items, count);
}

/// `HashMap::get`. Trusted: the count that the table holds for `items`, if
/// it holds one.
#[verifier::external_body]
fn support_table_get(table: &ItemsetSupport, items: &[Item]) -> (count: Option<u32>)
    ensures
        count == (if support_entries(*table).contains_key(items@) {
            Some(support_entries(*table)[items@])
        } else {
            None::<u32>
        }),
{
    table.get(items).copied()
}

/// The table that `itemsets` gives: each itemset with its count, a later
/// entry replacing an earlier one for the same items.
pub open spec fn support_of(itemsets: Seq<ItemSet>) -> Map<Seq<Item>, u32>
    decreases itemsets.len(),
{
    if itemsets.len() == 0 {
        Map::empty()
    } else {
        support_of(itemsets.drop_last()).insert(itemsets.last().items@, itemsets.last().count)
    }
}

/// The table of `itemsets` knows the items of each of them, and no others;
/// what it holds for them is the count of one of the itemsets with these
/// items.
pub proof fn lemma_support_of(itemsets: Seq<ItemSet>, items: Seq<Item>)
    ensures
        support_of(itemsets).contains_key(items) <==> exists|k: int|
            0 <= k < itemsets.len() && (#[trigger] itemsets[k]).items@ == items,
        support_of(itemsets).contains_key(items) ==> exists|k: int|
            0 <= k < itemsets.len() && (#[trigger] itemsets[k]).items@ == items && support_of(
                itemsets,
            )[items] == itemsets[k].count,
    decreases itemsets.len(),
{
    if itemsets.len() > 0 {
        let rest = itemsets.drop_last();
        lemma_support_of(rest, items);
        let last = itemsets.last();
        assert(itemsets[itemsets.len() - 1] == last);
        if last.items@ == items {
        } else {
            if support_of(rest).contains_key(items) {
                let k = choose|k: int|
                    0 <= k < rest.len() && (#[trigger] rest[k]).items@ == items && support_of(
                        rest,
                    )[items] == rest[k].count;
                assert(itemsets[k] == rest[k]);
            }
            if exists|k: int| 0 <= k < itemsets.len() && (#[trigger] itemsets[k]).items@ == items {
                let k = choose|k: int|
                    0 <= k < itemsets.len() && (#[trigger] itemsets[k]).items@ == items;
                assert(rest[k] == itemsets[k]);
            }
        }
    }
}

fn copy_items(items: &[Item]) -> (copy: Vec<Item>)
    ensures
        copy@ == items@,
{
    let mut copy: Vec<Item> = Vec::new();
    let mut i: usize = 0;
    while i < items.len()
        invariant
            i <= items.len(),
            copy@ == items@.take(i as int),
        decreases items.len() - i,
    {
        copy.push(items[i]);
        assert(items@.take(i as int).push(items[i as int]) == items@.take(i + 1));
        i += 1;
    }
    assert(items@.take(items.len() as int) == items@);
    copy
}

/// Builds the table of supports of `itemsets`.
pub fn create_support_lookup(itemsets: &Vec<ItemSet>) -> (table: ItemsetSupport)
    ensures
        support_entries(table) == support_of(itemsets@),
{
    let mut table = support_table_new();
    let mut i: usize = 0;
    while i < itemsets.len()
        invariant
            i <= itemsets.len(),
            support_entries(table) == support_of(itemsets@.take(i as int)),
        decreases itemsets.len() - i,
    {
        let key = copy_items(itemsets[i].items.as_slice());
        support_table_insert(&mut table, key, itemsets[i].count);
        proof {
            let upto = itemsets@.take(i + 1);
            assert(upto.drop_last() == itemsets@.take(i as int));
            assert(upto.last() == itemsets@[i as int]);
        }
        i += 1;
    }
    assert(itemsets@.take(itemsets.len() as int) == itemsets@);
    table
}

/// What rules are asked for: the itemset to split, its count, the table of
/// supports, the size of the dataset and the two thresholds.
pub struct RuleQuery {
    pub itemset: Seq<Item>,
    pub count: u32,
    pub table: Map<Seq<Item>, u32>,
    pub dataset_size: u32,
    pub min_confidence: Ratio,
    pub min_lift: Ratio,
}

/// Whether `c` can stand on the right of a rule made from `itemset`: an
/// ascending part of it that is neither empty nor the whole.
pub open spec fn is_consequent(itemset: Seq<Item>, c: Seq<Item>) -> bool {
    ascending(c) && subset_of(c, itemset) && 1 <= c.len() < itemset.len()
}

/// Some rule of `rules` has the consequent `c`.
pub open spec fn listed(rules: Seq<Rule>, c: Seq<Item>) -> bool {
    exists|k: int| 0 <= k < rules.len() && (#[trigger] rules[k]).consequent@ == c
}

impl RuleQuery {
    /// The left side that goes with the consequent `c`.
    pub open spec fn antecedent(self, c: Seq<Item>) -> Seq<Item> {
        without(self.itemset, c)
    }

    /// The table knows both sides of the rule with consequent `c`. A rule
    /// with a side that the table lacks is rejected.
    pub open spec fn known(self, c: Seq<Item>) -> bool {
        self.table.contains_key(self.antecedent(c)) && self.table.contains_key(c)
    }

    /// The confidence of the rule with consequent `c` reaches the threshold.
    pub open spec fn confident(self, c: Seq<Item>) -> bool {
        self.known(c) && self.min_confidence.reached_by(
            self.count as int,
            self.table[self.antecedent(c)] as int,
        )
    }

    /// The lift of the rule with consequent `c` reaches the threshold.
    pub open spec fn lifted(self, c: Seq<Item>) -> bool {
        self.known(c) && self.min_lift.reached_by(
            self.count * self.dataset_size,
            self.table[self.antecedent(c)] * self.table[c],
        )
    }

    /// The consequent `c` is reached by the level-wise search: it is
    /// confident, and so are the two consequents it is merged from, which
    /// are `c` without its last item and `c` without the item before that.
    pub open spec fn retained(self, c: Seq<Item>) -> bool
        decreases c.len(),
    {
        if c.len() <= 1 {
            self.confident(c)
        } else {
            self.confident(c) && self.retained(c.drop_last()) && self.retained(
                c.remove(c.len() - 2),
            )
        }
    }

    /// A rule with consequent `c` is given out.
    pub open spec fn emitted(self, c: Seq<Item>) -> bool {
        is_consequent(self.itemset, c) && self.retained(c) && self.lifted(c)
    }

    /// `rule` is the rule of this query for its consequent: the antecedent
    /// is the rest of the itemset, and the counts are those of the table.
    pub open spec fn describes(self, rule: Rule) -> bool {
        &&& rule.antecedent@ == self.antecedent(rule.consequent@)
        &&& self.known(rule.consequent@)
        &&& rule.itemset_count == self.count
        &&& rule.antecedent_count == self.table[rule.antecedent@]
        &&& rule.consequent_count == self.table[rule.consequent@]
        &&& rule.dataset_size == self.dataset_size
    }

    /// Every part of the itemset that can be one side of a rule is known to
    /// the table, and a part is counted at least as often as a larger one.
    pub open spec fn consistent(self) -> bool {
        &&& forall|s: Seq<Item>| is_consequent(self.itemset, s) ==> self.table.contains_key(s)
        &&& forall|s: Seq<Item>, t: Seq<Item>|
            is_consequent(self.itemset, s) && is_consequent(self.itemset, t) && subset_of(s, t)
                ==> self.table[s] >= self.table[t]
    }
}

/// `rules` is what the search gives for `q`: one rule for each consequent
/// that is reached and whose lift passes, the shorter consequents first and
/// those of one length in the order of a dictionary.
pub open spec fn is_rule_list(q: RuleQuery, rules: Seq<Rule>) -> bool {
    &&& forall|k: int|
        0 <= k < rules.len() ==> q.emitted((#[trigger] rules[k]).consequent@) && q.describes(
            rules[k],
        )
    &&& forall|c: Seq<Item>| q.emitted(c) ==> listed(rules, c)
    &&& forall|j: int, k: int|
        0 <= j < k < rules.len() ==> comes_before(
            (#[trigger] rules[j]).consequent@,
            (#[trigger] rules[k]).consequent@,
        )
}

spec fn valid_at(q: RuleQuery, c: Seq<Item>, m: int) -> bool {
    c.len() == m && ascending(c) && subset_of(c, q.itemset)
}

spec fn holds(cand: Seq<Vec<Item>>, c: Seq<Item>) -> bool {
    exists|j: int| 0 <= j < cand.len() && (#[trigger] cand[j])@ == c
}

spec fn sorted_lex(cand: Seq<Vec<Item>>) -> bool {
    forall|i: int, j: int|
        0 <= i < j < cand.len() ==> lex_less((#[trigger] cand[i])@, (#[trigger] cand[j])@)
}

spec fn level_ok(q: RuleQuery, cand: Seq<Vec<Item>>, m: int) -> bool {
    &&& forall|j: int|
        0 <= j < cand.len() ==> valid_at(q, (#[trigger] cand[j])@, m) && q.retained(cand[j]@)
    &&& sorted_lex(cand)
    &&& forall|c: Seq<Item>| valid_at(q, c, m) && q.retained(c) ==> holds(cand, c)
}

spec fn rules_sound(q: RuleQuery, rules: Seq<Rule>, m: int) -> bool {
    forall|k: int|
        0 <= k < rules.len() ==> q.emitted((#[trigger] rules[k]).consequent@) && q.describes(
            rules[k],
        ) && rules[k].consequent@.len() <= m
}

spec fn rules_ordered(rules: Seq<Rule>) -> bool {
    forall|j: int, k: int|
        0 <= j < k < rules.len() ==> comes_before(
            (#[trigger] rules[j]).consequent@,
            (#[trigger] rules[k]).consequent@,
        )
}

spec fn rules_ok(q: RuleQuery, rules: Seq<Rule>, m: int) -> bool {
    &&& rules_sound(q, rules, m)
    &&& forall|c: Seq<Item>| q.emitted(c) && c.len() <= m ==> listed(rules, c)
    &&& rules_ordered(rules)
}

spec fn pair_done(a: int, b: int, i1: int, i2: int) -> bool {
    a < i1 || (a == i1 && b < i2)
}

spec fn merged(cand: Seq<Vec<Item>>, a: int, b: int) -> Seq<Item> {
    cand[a]@.push(cand[b]@.last())
}

spec fn mergeable(cand: Seq<Vec<Item>>, a: int, b: int, m: int) -> bool {
    0 <= a < b < cand.len() && agree_before(cand[a]@, cand[b]@, m - 1)
}

spec fn partial_ok(
    q: RuleQuery,
    cand: Seq<Vec<Item>>,
    next: Seq<Vec<Item>>,
    src: Seq<(int, int)>,
    m: int,
    i1: int,
    i2: int,
) -> bool {
    &&& src.len() == next.len()
    &&& forall|j: int|
        0 <= j < next.len() ==> mergeable(cand, (#[trigger] src[j]).0, src[j].1, m) && pair_done(
            src[j].0,
            src[j].1,
            i1,
            i2,
        ) && next[j]@ == merged(cand, src[j].0, src[j].1) && q.confident(next[j]@)
    &&& forall|a: int, b: int|
        mergeable(cand, a, b, m) && pair_done(a, b, i1, i2) && q.confident(
            #[trigger] merged(cand, a, b),
        ) ==> holds(next, merged(cand, a, b))
    &&& sorted_lex(next)
}

spec fn rules_partial(q: RuleQuery, rules: Seq<Rule>, next: Seq<Vec<Item>>, m: int) -> bool {
    &&& rules_sound(q, rules, m + 1)
    &&& forall|c: Seq<Item>| q.emitted(c) && c.len() <= m ==> listed(rules, c)
    &&& forall|c: Seq<Item>| holds(next, c) && q.lifted(c) ==> listed(rules, c)
    &&& forall|k: int|
        0 <= k < rules.len() && (#[trigger] rules[k]).consequent@.len() == m + 1 ==> holds(
            next,
            rules[k].consequent@,
        )
    &&& rules_ordered(rules)
}

proof fn lemma_lex_sandwich(x: Seq<Item>, y: Seq<Item>, z: Seq<Item>, p: int)
    requires
        x.len() == y.len() == z.len(),
        0 <= p <= x.len(),
        lex_less(x, y),
        lex_less(y, z),
        agree_before(x, z, p),
    ensures
        agree_before(x, y, p),
{
    let k1 = choose|k: int|
        0 <= k < x.len() && k < y.len() && #[trigger] agree_before(x, y, k) && x[k].id < y[k].id;
    let k2 = choose|k: int|
        0 <= k < y.len() && k < z.len() && #[trigger] agree_before(y, z, k) && y[k].id < z[k].id;
    if k1 < p {
        assert(x[k1] == z[k1]);
        if k2 > k1 {
            assert(y[k1] == z[k1]);
        } else if k2 < k1 {
            assert(x[k2] == y[k2]);
            assert(x[k2] == z[k2]);
        }
        assert(false);
    }
}

proof fn lemma_last_order(c1: Seq<Item>, c2: Seq<Item>)
    requires
        c1.len() == c2.len(),
        c1.len() >= 1,
        agree_before(c1, c2, c1.len() - 1),
        lex_less(c1, c2),
    ensures
        c1.last().id < c2.last().id,
{
    let k = choose|k: int|
        0 <= k < c1.len() && k < c2.len() && #[trigger] agree_before(c1, c2, k) && c1[k].id
            < c2[k].id;
    if k < c1.len() - 1 {
        assert(c1[k] == c2[k]);
    }
}

proof fn lemma_merge_shape(c1: Seq<Item>, c2: Seq<Item>)
    requires
        c1.len() == c2.len(),
        c1.len() >= 1,
        ascending(c1),
        ascending(c2),
        agree_before(c1, c2, c1.len() - 1),
        c1.last().id < c2.last().id,
    ensures
        ascending(c1.push(c2.last())),
        c1.push(c2.last()).drop_last() == c1,
        c1.push(c2.last()).remove(c1.len() - 1) == c2,
        forall|x: Item|
            c1.push(c2.last()).contains(x) <==> (c1.contains(x) || c2.contains(x)),
{
    let m = c1.len() as int;
    let c = c1.push(c2.last());
    assert(c.drop_last() =~= c1);
    assert forall|i: int, j: int| 0 <= i < j < c.len() implies c[i].id < c[j].id by {
        if j == m && i < m - 1 {
            assert(c1[i].id < c1[m - 1].id);
        }
    }
    assert(c.remove(m - 1) =~= c2) by {
        assert(c.remove(m - 1).len() == m);
        assert forall|t: int| 0 <= t < m implies c.remove(m - 1)[t] == c2[t] by {
            if t < m - 1 {
                assert(c1[t] == c2[t]);
            }
        }
    }
    assert forall|x: Item| c.contains(x) <==> (c1.contains(x) || c2.contains(x)) by {
        if c.contains(x) {
            let k = choose|k: int| 0 <= k < c.len() && c[k] == x;
            if k < m {
                assert(c1[k] == x);
            } else {
                assert(c2[m - 1] == x);
            }
        }
        if c1.contains(x) {
            let k = choose|k: int| 0 <= k < c1.len() && c1[k] == x;
            assert(c[k] == x);
        }
        if c2.contains(x) {
            let k = choose|k: int| 0 <= k < c2.len() && c2[k] == x;
            if k < m - 1 {
                assert(c1[k] == c2[k]);
                assert(c[k] == x);
            } else {
                assert(c[m] == x);
            }
        }
    }
}

/// The two consequents that a longer one is merged from are ascending parts
/// of the itemset too.
proof fn lemma_parts_valid(q: RuleQuery, c: Seq<Item>)
    requires
        c.len() >= 2,
        ascending(c),
        subset_of(c, q.itemset),
    ensures
        valid_at(q, c.drop_last(), c.len() - 1),
        valid_at(q, c.remove(c.len() - 2), c.len() - 1),
        agree_before(c.drop_last(), c.remove(c.len() - 2), c.len() - 2),
        c.drop_last().last().id < c.remove(c.len() - 2).last().id,
        c == c.drop_last().push(c.remove(c.len() - 2).last()),
{
    let d = c.drop_last();
    let r = c.remove(c.len() - 2);
    assert forall|x: Item| d.contains(x) implies q.itemset.contains(x) by {
        let k = choose|k: int| 0 <= k < d.len() && d[k] == x;
        assert(c[k] == x);
        assert(c.contains(x));
    }
    assert forall|x: Item| r.contains(x) implies q.itemset.contains(x) by {
        let k = choose|k: int| 0 <= k < r.len() && r[k] == x;
        if k < c.len() - 2 {
            assert(c[k] == x);
        } else {
            assert(c[k + 1] == x);
        }
        assert(c.contains(x));
    }
    assert(r.last() == c.last());
    assert(c =~= d.push(r.last()));
}

proof fn lemma_retained_prefix(q: RuleQuery, c: Seq<Item>, m: int)
    requires
        q.retained(c),
        ascending(c),
        subset_of(c, q.itemset),
        1 <= m <= c.len(),
    ensures
        q.retained(c.take(m)),
        valid_at(q, c.take(m), m),
    decreases c.len(),
{
    if m == c.len() {
        assert(c.take(m) =~= c);
    } else {
        lemma_parts_valid(q, c);
        lemma_retained_prefix(q, c.drop_last(), m);
        assert(c.drop_last().take(m) =~= c.take(m));
    }
}

/// In a list sorted by the order of a dictionary, the order of two entries
/// is that of their places.
proof fn lemma_sorted_places(cand: Seq<Vec<Item>>, a: int, b: int)
    requires
        sorted_lex(cand),
        0 <= a < cand.len(),
        0 <= b < cand.len(),
        lex_less(cand[a]@, cand[b]@),
    ensures
        a < b,
{
    lemma_lex_one_way(cand[a]@, cand[b]@);
    if b < a {
        assert(lex_less(cand[b]@, cand[a]@));
    }
}

/// What is merged from a pair of places is larger, in the order of a
/// dictionary, than what is merged from any pair before it.
proof fn lemma_merged_order(cand: Seq<Vec<Item>>, m: int, a: int, b: int, i1: int, i2: int)
    requires
        m >= 1,
        sorted_lex(cand),
        forall|j: int| 0 <= j < cand.len() ==> (#[trigger] cand[j])@.len() == m,
        mergeable(cand, a, b, m),
        mergeable(cand, i1, i2, m),
        pair_done(a, b, i1, i2),
    ensures
        lex_less(merged(cand, a, b), merged(cand, i1, i2)),
{
    let x = merged(cand, a, b);
    let y = merged(cand, i1, i2);
    if a < i1 {
        let ca = cand[a]@;
        let ci = cand[i1]@;
        assert(lex_less(ca, ci));
        let k = choose|k: int|
            0 <= k < ca.len() && k < ci.len() && #[trigger] agree_before(ca, ci, k) && ca[k].id
                < ci[k].id;
        assert(agree_before(x, y, k)) by {
            assert forall|i: int| 0 <= i < k implies x[i] == y[i] by {
                assert(ca[i] == ci[i]);
            }
        }
        assert(x[k] == ca[k] && y[k] == ci[k]);
    } else {
        let cb = cand[b]@;
        let c2 = cand[i2]@;
        let c1 = cand[i1]@;
        assert(lex_less(cb, c2));
        assert(agree_before(cb, c2, m - 1)) by {
            assert forall|i: int| 0 <= i < m - 1 implies cb[i] == c2[i] by {
                assert(c1[i] == cb[i]);
                assert(c1[i] == c2[i]);
            }
        }
        lemma_last_order(cb, c2);
        assert(agree_before(x, y, m));
        assert(x[m] == cb.last() && y[m] == c2.last());
    }
}

/// A merged consequent is reached exactly when it is confident, given that
/// the two it is merged from are reached.
proof fn lemma_merged_valid(q: RuleQuery, cand: Seq<Vec<Item>>, m: int, a: int, b: int)
    requires
        m >= 1,
        level_ok(q, cand, m),
        mergeable(cand, a, b, m),
    ensures
        valid_at(q, merged(cand, a, b), m + 1),
        merged(cand, a, b).drop_last() == cand[a]@,
        merged(cand, a, b).remove(m - 1) == cand[b]@,
        q.retained(merged(cand, a, b)) == q.confident(merged(cand, a, b)),
        forall|x: Item|
            merged(cand, a, b).contains(x) <==> (cand[a]@.contains(x) || cand[b]@.contains(x)),
{
    let c1 = cand[a]@;
    let c2 = cand[b]@;
    assert(valid_at(q, c1, m) && valid_at(q, c2, m));
    assert(lex_less(c1, c2));
    lemma_last_order(c1, c2);
    lemma_merge_shape(c1, c2);
    let c = merged(cand, a, b);
    assert(q.retained(c1) && q.retained(c2));
    assert(c.len() - 2 == m - 1);
}

proof fn lemma_partial_keep(
    q: RuleQuery,
    cand: Seq<Vec<Item>>,
    next: Seq<Vec<Item>>,
    src: Seq<(int, int)>,
    m: int,
    i1: int,
    i2: int,
    c: Vec<Item>,
)
    requires
        m >= 1,
        level_ok(q, cand, m),
        partial_ok(q, cand, next, src, m, i1, i2),
        mergeable(cand, i1, i2, m),
        c@ == merged(cand, i1, i2),
        q.confident(c@),
    ensures
        partial_ok(q, cand, next.push(c), src.push((i1, i2)), m, i1, i2 + 1),
        forall|j: int| 0 <= j < next.len() ==> lex_less((#[trigger] next[j])@, c@),
{
    let next2 = next.push(c);
    let src2 = src.push((i1, i2));
    assert forall|j: int| 0 <= j < next.len() implies lex_less((#[trigger] next[j])@, c@) by {
        lemma_merged_order(cand, m, src[j].0, src[j].1, i1, i2);
    }
    assert forall|j: int| 0 <= j < next2.len() implies mergeable(
        cand,
        (#[trigger] src2[j]).0,
        src2[j].1,
        m,
    ) && pair_done(src2[j].0, src2[j].1, i1, i2 + 1) && next2[j]@ == merged(
        cand,
        src2[j].0,
        src2[j].1,
    ) && q.confident(next2[j]@) by {
        if j < next.len() {
            assert(src2[j] == src[j]);
            assert(next2[j] == next[j]);
        }
    }
    assert forall|a: int, b: int|
        mergeable(cand, a, b, m) && pair_done(a, b, i1, i2 + 1) && q.confident(
            #[trigger] merged(cand, a, b),
        ) implies holds(next2, merged(cand, a, b)) by {
        if pair_done(a, b, i1, i2) {
            assert(holds(next, merged(cand, a, b)));
            let j = choose|j: int| 0 <= j < next.len() && (#[trigger] next[j])@ == merged(cand, a, b);
            assert(next2[j]@ == merged(cand, a, b));
        } else {
            assert(a == i1 && b == i2);
            assert(next2[next.len() as int]@ == merged(cand, a, b));
        }
    }
    assert forall|i: int, j: int| 0 <= i < j < next2.len() implies lex_less(
        (#[trigger] next2[i])@,
        (#[trigger] next2[j])@,
    ) by {
        if j < next.len() {
            assert(next2[i] == next[i] && next2[j] == next[j]);
        } else {
            assert(next2[i] == next[i]);
        }
    }
}

proof fn lemma_partial_skip(
    q: RuleQuery,
    cand: Seq<Vec<Item>>,
    next: Seq<Vec<Item>>,
    src: Seq<(int, int)>,
    m: int,
    i1: int,
    i2: int,
)
    requires
        partial_ok(q, cand, next, src, m, i1, i2),
        !(mergeable(cand, i1, i2, m) && q.confident(merged(cand, i1, i2))),
    ensures
        partial_ok(q, cand, next, src, m, i1, i2 + 1),
{
    assert forall|a: int, b: int|
        mergeable(cand, a, b, m) && pair_done(a, b, i1, i2 + 1) && q.confident(
            #[trigger] merged(cand, a, b),
        ) implies holds(next, merged(cand, a, b)) by {
        if !pair_done(a, b, i1, i2) {
            assert(a == i1 && b == i2);
        }
    }
}

/// Once a place does not share the prefix with `i1`, no later place does:
/// the row of `i1` is finished.
proof fn lemma_partial_row(
    q: RuleQuery,
    cand: Seq<Vec<Item>>,
    next: Seq<Vec<Item>>,
    src: Seq<(int, int)>,
    m: int,
    i1: int,
    i2: int,
)
    requires
        m >= 1,
        level_ok(q, cand, m),
        0 <= i1 < i2 <= cand.len(),
        partial_ok(q, cand, next, src, m, i1, i2),
        i2 < cand.len() ==> !agree_before(cand[i1]@, cand[i2]@, m - 1),
    ensures
        partial_ok(q, cand, next, src, m, i1 + 1, i1 + 2),
{
    assert forall|a: int, b: int|
        mergeable(cand, a, b, m) && pair_done(a, b, i1 + 1, i1 + 2) && q.confident(
            #[trigger] merged(cand, a, b),
        ) implies holds(next, merged(cand, a, b)) by {
        if !pair_done(a, b, i1, i2) {
            assert(a == i1 && b >= i2);
            if b > i2 {
                assert(valid_at(q, cand[i1]@, m));
                assert(valid_at(q, cand[i2]@, m));
                assert(valid_at(q, cand[b]@, m));
                assert(lex_less(cand[i1]@, cand[i2]@));
                assert(lex_less(cand[i2]@, cand[b]@));
                lemma_lex_sandwich(cand[i1]@, cand[i2]@, cand[b]@, m - 1);
            }
            assert(false);
        }
    }
}

/// When every pair has been tried, the merged consequents that were kept
/// are those of the next level.
proof fn lemma_partial_done(
    q: RuleQuery,
    cand: Seq<Vec<Item>>,
    next: Seq<Vec<Item>>,
    src: Seq<(int, int)>,
    m: int,
    i1: int,
)
    requires
        m >= 1,
        level_ok(q, cand, m),
        i1 >= cand.len(),
        partial_ok(q, cand, next, src, m, i1, i1 + 1),
    ensures
        level_ok(q, next, m + 1),
{
    assert forall|j: int| 0 <= j < next.len() implies valid_at(q, (#[trigger] next[j])@, m + 1)
        && q.retained(next[j]@) by {
        lemma_merged_valid(q, cand, m, src[j].0, src[j].1);
    }
    assert forall|c: Seq<Item>| valid_at(q, c, m + 1) && q.retained(c) implies holds(next, c) by {
        lemma_parts_valid(q, c);
        let c1 = c.drop_last();
        let c2 = c.remove(c.len() - 2);
        assert(q.retained(c1) && q.retained(c2));
        assert(holds(cand, c1));
        assert(holds(cand, c2));
        let a = choose|j: int| 0 <= j < cand.len() && (#[trigger] cand[j])@ == c1;
        let b = choose|j: int| 0 <= j < cand.len() && (#[trigger] cand[j])@ == c2;
        assert(lex_less(c1, c2)) by {
            assert(agree_before(c1, c2, m - 1));
            assert(c1[m - 1].id < c2[m - 1].id);
        }
        lemma_sorted_places(cand, a, b);
        assert(mergeable(cand, a, b, m));
        assert(merged(cand, a, b) == c);
        assert(pair_done(a, b, i1, i1 + 1));
    }
}

proof fn lemma_rules_push(
    q: RuleQuery,
    rules: Seq<Rule>,
    next: Seq<Vec<Item>>,
    m: int,
    c: Vec<Item>,
    rule: Option<Rule>,
)
    requires
        m >= 1,
        rules_partial(q, rules, next, m),
        forall|j: int| 0 <= j < next.len() ==> lex_less((#[trigger] next[j])@, c@),
        c@.len() == m + 1,
        is_consequent(q.itemset, c@),
        q.retained(c@),
        rule is Some <==> q.lifted(c@),
        rule is Some ==> q.describes(rule->0) && (rule->0).consequent@ == c@,
    ensures
        rules_partial(
            q,
            if rule is Some {
                rules.push(rule->0)
            } else {
                rules
            },
            next.push(c),
            m,
        ),
{
    let next2 = next.push(c);
    let rules2 = if rule is Some {
        rules.push(rule->0)
    } else {
        rules
    };
    assert forall|x: Seq<Item>| holds(next, x) implies holds(next2, x) by {
        let j = choose|j: int| 0 <= j < next.len() && (#[trigger] next[j])@ == x;
        assert(next2[j]@ == x);
    }
    assert forall|x: Seq<Item>| listed(rules, x) implies listed(rules2, x) by {
        let k = choose|k: int| 0 <= k < rules.len() && (#[trigger] rules[k]).consequent@ == x;
        assert(rules2[k].consequent@ == x);
    }
    assert(holds(next2, c@)) by {
        assert(next2[next.len() as int]@ == c@);
    }
    assert forall|x: Seq<Item>| holds(next2, x) && q.lifted(x) implies listed(rules2, x) by {
        let j = choose|j: int| 0 <= j < next2.len() && (#[trigger] next2[j])@ == x;
        if j < next.len() {
            assert(next[j]@ == x);
            assert(holds(next, x));
        } else {
            assert(x == c@);
            assert(rules2[rules.len() as int].consequent@ == x);
        }
    }
    assert forall|k: int|
        0 <= k < rules2.len() && (#[trigger] rules2[k]).consequent@.len() == m + 1 implies holds(
        next2,
        rules2[k].consequent@,
    ) by {
        if k < rules.len() {
            assert(rules2[k] == rules[k]);
            assert(holds(next, rules[k].consequent@));
        }
    }
    assert forall|j: int, k: int| 0 <= j < k < rules2.len() implies comes_before(
        (#[trigger] rules2[j]).consequent@,
        (#[trigger] rules2[k]).consequent@,
    ) by {
        if k < rules.len() {
            assert(rules2[j] == rules[j] && rules2[k] == rules[k]);
        } else {
            assert(rules2[j] == rules[j]);
            let cj = rules[j].consequent@;
            if cj.len() == m + 1 {
                assert(holds(next, cj));
                let t = choose|t: int| 0 <= t < next.len() && (#[trigger] next[t])@ == cj;
                assert(lex_less(next[t]@, c@));
            }
        }
    }
    assert forall|k: int| 0 <= k < rules2.len() implies q.emitted(
        (#[trigger] rules2[k]).consequent@,
    ) && q.describes(rules2[k]) && rules2[k].consequent@.len() <= m + 1 by {
        if k < rules.len() {
            assert(rules2[k] == rules[k]);
        }
    }
}

proof fn lemma_rules_level_done(q: RuleQuery, rules: Seq<Rule>, next: Seq<Vec<Item>>, m: int)
    requires
        m >= 1,
        rules_partial(q, rules, next, m),
        level_ok(q, next, m + 1),
    ensures
        rules_ok(q, rules, m + 1),
{
    assert forall|c: Seq<Item>| q.emitted(c) && c.len() <= m + 1 implies listed(rules, c) by {
        if c.len() == m + 1 {
            assert(valid_at(q, c, m + 1));
            assert(holds(next, c));
        }
    }
}

/// The rule for one consequent, where its confidence passes; and whether
/// the consequent stays for the next level.
fn assess(
    count: u32,
    table: &ItemsetSupport,
    dataset_size: u32,
    min_confidence: Ratio,
    min_lift: Ratio,
    antecedent: Vec<Item>,
    consequent: &Vec<Item>,
    Ghost(q): Ghost<RuleQuery>,
) -> (verdict: (bool, Option<Rule>))
    requires
        q.count == count,
        q.table == support_entries(*table),
        q.dataset_size == dataset_size,
        q.min_confidence == min_confidence,
        q.min_lift == min_lift,
        antecedent@ == q.antecedent(consequent@),
    ensures
        verdict.0 == q.confident(consequent@),
        verdict.1 is Some <==> (q.confident(consequent@) && q.lifted(consequent@)),
        verdict.1 is Some ==> q.describes(verdict.1->0) && (verdict.1->0).consequent@
            == consequent@,
{
    let antecedent_count = match support_table_get(table, antecedent.as_slice()) {
        Some(n) => n,
        None => {
            return (false, None);
        },
    };
    let consequent_count = match support_table_get(table, consequent.as_slice()) {
        Some(n) => n,
        None => {
            return (false, None);
        },
    };
    if !min_confidence.is_reached_by(count as u64, antecedent_count as u64) {
        return (false, None);
    }
    let limit: u64 = 0xffff_ffff;
    assert(count * dataset_size <= limit * limit) by (nonlinear_arith)
        requires
            0 <= count <= limit,
            0 <= dataset_size <= limit,
    ;
    assert(antecedent_count * consequent_count <= limit * limit) by (nonlinear_arith)
        requires
            0 <= antecedent_count <= limit,
            0 <= consequent_count <= limit,
    ;
    let part: u64 = (count as u64) * (dataset_size as u64);
    let whole: u64 = (antecedent_count as u64) * (consequent_count as u64);
    if min_lift.is_reached_by(part, whole) {
        let rule = Rule {
            antecedent,
            consequent: copy_items(consequent.as_slice()),
            itemset_count: count,
            antecedent_count,
            consequent_count,
            dataset_size,
        };
        (true, Some(rule))
    } else {
        (true, None)
    }
}

proof fn lemma_singleton(q: RuleQuery, t: int)
    requires
        ascending(q.itemset),
        q.itemset.len() >= 2,
        0 <= t < q.itemset.len(),
    ensures
        is_consequent(q.itemset, seq![q.itemset[t]]),
        valid_at(q, seq![q.itemset[t]], 1),
        q.retained(seq![q.itemset[t]]) == q.confident(seq![q.itemset[t]]),
{
    let c = seq![q.itemset[t]];
    assert forall|x: Item| c.contains(x) implies q.itemset.contains(x) by {
        let k = choose|k: int| 0 <= k < c.len() && c[k] == x;
        assert(q.itemset[t] == x);
    }
}

proof fn lemma_singleton_order(itemset: Seq<Item>, s: int, t: int)
    requires
        ascending(itemset),
        0 <= s < t < itemset.len(),
    ensures
        lex_less(seq![itemset[s]], seq![itemset[t]]),
        comes_before(seq![itemset[s]], seq![itemset[t]]),
{
    assert(agree_before(seq![itemset[s]], seq![itemset[t]], 0));
}

proof fn lemma_len_one(q: RuleQuery, c: Seq<Item>) -> (t: int)
    requires
        valid_at(q, c, 1),
    ensures
        0 <= t < q.itemset.len(),
        c == seq![q.itemset[t]],
{
    assert(c.contains(c[0]));
    let t = choose|t: int| 0 <= t < q.itemset.len() && q.itemset[t] == c[0];
    assert(c =~= seq![q.itemset[t]]);
    t
}

spec fn seeds_ok(q: RuleQuery, cand: Seq<Vec<Item>>, src: Seq<int>, idx: int) -> bool {
    &&& src.len() == cand.len()
    &&& forall|j: int|
        0 <= j < cand.len() ==> 0 <= #[trigger] src[j] < idx && cand[j]@ == seq![
            q.itemset[src[j]],
        ] && q.confident(cand[j]@)
    &&& forall|i: int, j: int| 0 <= i < j < src.len() ==> src[i] < src[j]
    &&& forall|t: int|
        0 <= t < idx && q.confident(seq![#[trigger] q.itemset[t]]) ==> holds(
            cand,
            seq![q.itemset[t]],
        )
}

spec fn seed_rules_ok(q: RuleQuery, rules: Seq<Rule>, src: Seq<int>, idx: int) -> bool {
    &&& src.len() == rules.len()
    &&& forall|k: int|
        0 <= k < rules.len() ==> 0 <= #[trigger] src[k] < idx && rules[k].consequent@ == seq![
            q.itemset[src[k]],
        ] && q.emitted(rules[k].consequent@) && q.describes(rules[k])
    &&& forall|i: int, j: int| 0 <= i < j < src.len() ==> src[i] < src[j]
    &&& forall|t: int|
        0 <= t < idx && q.emitted(seq![#[trigger] q.itemset[t]]) ==> listed(
            rules,
            seq![q.itemset[t]],
        )
}

proof fn lemma_seed_step(
    q: RuleQuery,
    cand: Seq<Vec<Item>>,
    csrc: Seq<int>,
    rules: Seq<Rule>,
    rsrc: Seq<int>,
    idx: int,
    c: Vec<Item>,
    keep: bool,
    rule: Option<Rule>,
)
    requires
        ascending(q.itemset),
        q.itemset.len() >= 2,
        0 <= idx < q.itemset.len(),
        seeds_ok(q, cand, csrc, idx),
        seed_rules_ok(q, rules, rsrc, idx),
        c@ == seq![q.itemset[idx]],
        keep == q.confident(c@),
        rule is Some <==> (q.confident(c@) && q.lifted(c@)),
        rule is Some ==> q.describes(rule->0) && (rule->0).consequent@ == c@,
    ensures
        seeds_ok(
            q,
            if keep {
                cand.push(c)
            } else {
                cand
            },
            if keep {
                csrc.push(idx)
            } else {
                csrc
            },
            idx + 1,
        ),
        seed_rules_ok(
            q,
            if rule is Some {
                rules.push(rule->0)
            } else {
                rules
            },
            if rule is Some {
                rsrc.push(idx)
            } else {
                rsrc
            },
            idx + 1,
        ),
{
    lemma_singleton(q, idx);
    let cand2 = if keep {
        cand.push(c)
    } else {
        cand
    };
    let csrc2 = if keep {
        csrc.push(idx)
    } else {
        csrc
    };
    let rules2 = if rule is Some {
        rules.push(rule->0)
    } else {
        rules
    };
    let rsrc2 = if rule is Some {
        rsrc.push(idx)
    } else {
        rsrc
    };
    assert forall|t: int|
        0 <= t < idx + 1 && q.confident(seq![#[trigger] q.itemset[t]]) implies holds(
        cand2,
        seq![q.itemset[t]],
    ) by {
        if t < idx {
            assert(holds(cand, seq![q.itemset[t]]));
            let j = choose|j: int|
                0 <= j < cand.len() && (#[trigger] cand[j])@ == seq![q.itemset[t]];
            assert(cand2[j]@ == seq![q.itemset[t]]);
        } else {
            assert(cand2[cand.len() as int]@ == seq![q.itemset[t]]);
        }
    }
    assert forall|t: int|
        0 <= t < idx + 1 && q.emitted(seq![#[trigger] q.itemset[t]]) implies listed(
        rules2,
        seq![q.itemset[t]],
    ) by {
        if t < idx {
            assert(listed(rules, seq![q.itemset[t]]));
            let k = choose|k: int|
                0 <= k < rules.len() && (#[trigger] rules[k]).consequent@ == seq![q.itemset[t]];
            assert(rules2[k].consequent@ == seq![q.itemset[t]]);
        } else {
            assert(rules2[rules.len() as int].consequent@ == seq![q.itemset[t]]);
        }
    }
    assert forall|j: int| 0 <= j < cand2.len() implies 0 <= #[trigger] csrc2[j] < idx + 1
        && cand2[j]@ == seq![q.itemset[csrc2[j]]] && q.confident(cand2[j]@) by {
        if j < cand.len() {
            assert(csrc2[j] == csrc[j] && cand2[j] == cand[j]);
        }
    }
    assert forall|k: int| 0 <= k < rules2.len() implies 0 <= #[trigger] rsrc2[k] < idx + 1
        && rules2[k].consequent@ == seq![q.itemset[rsrc2[k]]] && q.emitted(rules2[k].consequent@)
        && q.describes(rules2[k]) by {
        if k < rules.len() {
            assert(rsrc2[k] == rsrc[k] && rules2[k] == rules[k]);
        }
    }
    assert forall|i: int, j: int| 0 <= i < j < csrc2.len() implies csrc2[i] < csrc2[j] by {
        if j < csrc.len() {
            assert(csrc2[i] == csrc[i] && csrc2[j] == csrc[j]);
        } else {
            assert(csrc2[i] == csrc[i]);
        }
    }
    assert forall|i: int, j: int| 0 <= i < j < rsrc2.len() implies rsrc2[i] < rsrc2[j] by {
        if j < rsrc.len() {
            assert(rsrc2[i] == rsrc[i] && rsrc2[j] == rsrc[j]);
        } else {
            assert(rsrc2[i] == rsrc[i]);
        }
    }
}

proof fn lemma_seed_done(
    q: RuleQuery,
    cand: Seq<Vec<Item>>,
    csrc: Seq<int>,
    rules: Seq<Rule>,
    rsrc: Seq<int>,
)
    requires
        ascending(q.itemset),
        q.itemset.len() >= 2,
        seeds_ok(q, cand, csrc, q.itemset.len() as int),
        seed_rules_ok(q, rules, rsrc, q.itemset.len() as int),
    ensures
        level_ok(q, cand, 1),
        rules_ok(q, rules, 1),
{
    assert forall|j: int| 0 <= j < cand.len() implies valid_at(q, (#[trigger] cand[j])@, 1)
        && q.retained(cand[j]@) by {
        lemma_singleton(q, csrc[j]);
    }
    assert forall|i: int, j: int| 0 <= i < j < cand.len() implies lex_less(
        (#[trigger] cand[i])@,
        (#[trigger] cand[j])@,
    ) by {
        lemma_singleton_order(q.itemset, csrc[i], csrc[j]);
    }
    assert forall|c: Seq<Item>| valid_at(q, c, 1) && q.retained(c) implies holds(cand, c) by {
        let t = lemma_len_one(q, c);
        lemma_singleton(q, t);
    }
    assert forall|c: Seq<Item>| q.emitted(c) && c.len() <= 1 implies listed(rules, c) by {
        let t = lemma_len_one(q, c);
    }
    assert forall|k: int| 0 <= k < rules.len() implies q.emitted(
        (#[trigger] rules[k]).consequent@,
    ) && q.describes(rules[k]) && rules[k].consequent@.len() <= 1 by {
        let t = rsrc[k];
    }
    assert forall|j: int, k: int| 0 <= j < k < rules.len() implies comes_before(
        (#[trigger] rules[j]).consequent@,
        (#[trigger] rules[k]).consequent@,
    ) by {
        lemma_singleton_order(q.itemset, rsrc[j], rsrc[k]);
    }
}

/// The first level: each item of the itemset alone as a consequent.
fn seed_level(
    itemset: &[Item],
    count: u32,
    table: &ItemsetSupport,
    dataset_size: u32,
    min_confidence: Ratio,
    min_lift: Ratio,
    rules: &mut Vec<Rule>,
    Ghost(q): Ghost<RuleQuery>,
) -> (cand: Vec<Vec<Item>>)
    requires
        q.itemset == itemset@,
        q.count == count,
        q.table == support_entries(*table),
        q.dataset_size == dataset_size,
        q.min_confidence == min_confidence,
        q.min_lift == min_lift,
        ascending(itemset@),
        itemset@.len() >= 2,
        old(rules)@.len() == 0,
    ensures
        level_ok(q, cand@, 1),
        rules_ok(q, final(rules)@, 1),
{
    let mut cand: Vec<Vec<Item>> = Vec::new();
    let ghost mut csrc: Seq<int> = Seq::empty();
    let ghost mut rsrc: Seq<int> = Seq::empty();
    let mut idx: usize = 0;
    while idx < itemset.len()
        invariant
            q.itemset == itemset@,
            q.count == count,
            q.table == support_entries(*table),
            q.dataset_size == dataset_size,
            q.min_confidence == min_confidence,
            q.min_lift == min_lift,
            ascending(itemset@),
            itemset@.len() >= 2,
            idx <= itemset.len(),
            seeds_ok(q, cand@, csrc, idx as int),
            seed_rules_ok(q, rules@, rsrc, idx as int),
        decreases itemset.len() - idx,
    {
        let parts = split_out_item(itemset, itemset[idx]);
        let antecedent = parts.0;
        let consequent = parts.1;
        let verdict = assess(
            count,
            table,
            dataset_size,
            min_confidence,
            min_lift,
            antecedent,
            &consequent,
            Ghost(q),
        );
        proof {
            lemma_seed_step(
                q,
                cand@,
                csrc,
                rules@,
                rsrc,
                idx as int,
                consequent,
                verdict.0,
                verdict.1,
            );
            if verdict.0 {
                csrc = csrc.push(idx as int);
            }
            if verdict.1 is Some {
                rsrc = rsrc.push(idx as int);
            }
        }
        match verdict.1 {
            Some(rule) => {
                rules.push(rule);
            },
            None => {},
        }
        if verdict.0 {
            cand.push(consequent);
        }
        idx += 1;
    }
    proof {
        lemma_seed_done(q, cand@, csrc, rules@, rsrc);
    }
    cand
}

/// The next level: every two consequents that differ in their last item
/// only are merged, and the merged one stays if its confidence passes.
fn next_level(
    itemset: &[Item],
    count: u32,
    table: &ItemsetSupport,
    dataset_size: u32,
    min_confidence: Ratio,
    min_lift: Ratio,
    cand: &Vec<Vec<Item>>,
    rules: &mut Vec<Rule>,
    m: usize,
    Ghost(q): Ghost<RuleQuery>,
) -> (next: Vec<Vec<Item>>)
    requires
        q.itemset == itemset@,
        q.count == count,
        q.table == support_entries(*table),
        q.dataset_size == dataset_size,
        q.min_confidence == min_confidence,
        q.min_lift == min_lift,
        ascending(itemset@),
        1 <= m,
        m + 1 < itemset@.len(),
        level_ok(q, cand@, m as int),
        rules_ok(q, old(rules)@, m as int),
    ensures
        level_ok(q, next@, m + 1),
        rules_ok(q, final(rules)@, m + 1),
{
    let mut next: Vec<Vec<Item>> = Vec::new();
    let ghost mut src: Seq<(int, int)> = Seq::empty();
    let n = cand.len();
    let mut i1: usize = 0;
    while i1 < n
        invariant
            q.itemset == itemset@,
            q.count == count,
            q.table == support_entries(*table),
            q.dataset_size == dataset_size,
            q.min_confidence == min_confidence,
            q.min_lift == min_lift,
            ascending(itemset@),
            1 <= m,
            m + 1 < itemset@.len(),
            n == cand@.len(),
            i1 <= n,
            level_ok(q, cand@, m as int),
            partial_ok(q, cand@, next@, src, m as int, i1 as int, i1 + 1),
            rules_partial(q, rules@, next@, m as int),
        decreases n - i1,
    {
        let mut i2: usize = i1 + 1;
        let mut shared = true;
        while i2 < n && shared
            invariant
                q.itemset == itemset@,
                q.count == count,
                q.table == support_entries(*table),
                q.dataset_size == dataset_size,
                q.min_confidence == min_confidence,
                q.min_lift == min_lift,
                ascending(itemset@),
                1 <= m,
                m + 1 < itemset@.len(),
                n == cand@.len(),
                i1 < i2 <= n,
                level_ok(q, cand@, m as int),
                partial_ok(q, cand@, next@, src, m as int, i1 as int, i2 as int),
                rules_partial(q, rules@, next@, m as int),
                !shared ==> i2 < n && !agree_before(
                    cand@[i1 as int]@,
                    cand@[i2 as int]@,
                    m - 1,
                ),
            decreases n - i2, shared as int,
        {
            proof {
                assert(valid_at(q, cand@[i1 as int]@, m as int));
                assert(valid_at(q, cand@[i2 as int]@, m as int));
            }
            if prefix_match_len(cand[i1].as_slice(), cand[i2].as_slice()) + 1 != m {
                proof {
                    assert(lex_less(cand@[i1 as int]@, cand@[i2 as int]@));
                    lemma_lex_one_way(cand@[i1 as int]@, cand@[i2 as int]@);
                    if agree_before(cand@[i1 as int]@, cand@[i2 as int]@, m - 1) {
                        assert(cand@[i1 as int]@ =~= cand@[i2 as int]@);
                    }
                }
                shared = false;
                continue ;
            }
            proof {
                assert(mergeable(cand@, i1 as int, i2 as int, m as int));
                lemma_merged_valid(q, cand@, m as int, i1 as int, i2 as int);
            }
            let consequent = union(cand[i1].as_slice(), cand[i2].as_slice());
            proof {
                lemma_ascending_unique(consequent@, merged(cand@, i1 as int, i2 as int));
                assert forall|x: Item| consequent@.contains(x) implies itemset@.contains(x) by {}
            }
            let antecedent = split_out(itemset, consequent.as_slice());
            let verdict = assess(
                count,
                table,
                dataset_size,
                min_confidence,
                min_lift,
                antecedent,
                &consequent,
                Ghost(q),
            );
            if verdict.0 {
                proof {
                    lemma_partial_keep(
                        q,
                        cand@,
                        next@,
                        src,
                        m as int,
                        i1 as int,
                        i2 as int,
                        consequent,
                    );
                    lemma_rules_push(q, rules@, next@, m as int, consequent, verdict.1);
                    src = src.push((i1 as int, i2 as int));
                }
                match verdict.1 {
                    Some(rule) => {
                        rules.push(rule);
                    },
                    None => {},
                }
                next.push(consequent);
            } else {
                proof {
                    lemma_partial_skip(q, cand@, next@, src, m as int, i1 as int, i2 as int);
                }
            }
            i2 += 1;
        }
        proof {
            lemma_partial_row(q, cand@, next@, src, m as int, i1 as int, i2 as int);
        }
        i1 += 1;
    }
    proof {
        lemma_partial_done(q, cand@, next@, src, m as int, i1 as int);
        lemma_rules_level_done(q, rules@, next@, m as int);
    }
    next
}


/// The query that one itemset makes.
pub open spec fn rule_query(
    itemset: Seq<Item>,
    count: u32,
    table: Map<Seq<Item>, u32>,
    dataset_size: u32,
    min_confidence: Ratio,
    min_lift: Ratio,
) -> RuleQuery {
    RuleQuery { itemset, count, table, dataset_size, min_confidence, min_lift }
}

/// The rules of one itemset, found level by level: first the consequents of
/// one item, then those merged from two of the level before that differ in
/// their last item only. A consequent whose confidence fails is dropped and
/// merged no further; one whose lift fails gives no rule, but stays.
pub fn generate_rules_for_itemset(
    itemset: &[Item],
    count: u32,
    table: &ItemsetSupport,
    dataset_size: u32,
    min_confidence: Ratio,
    min_lift: Ratio,
) -> (rules: Vec<Rule>)
    requires
        ascending(itemset@),
    ensures
        is_rule_list(
            rule_query(
                itemset@,
                count,
                support_entries(*table),
                dataset_size,
                min_confidence,
                min_lift,
            ),
            rules@,
        ),
{
    let ghost q = rule_query(
        itemset@,
        count,
        support_entries(*table),
        dataset_size,
        min_confidence,
        min_lift,
    );
    let mut rules: Vec<Rule> = Vec::new();
    let k = itemset.len();
    if k < 2 {
        return rules;
    }
    let mut cand = seed_level(
        itemset,
        count,
        table,
        dataset_size,
        min_confidence,
        min_lift,
        &mut rules,
        Ghost(q),
    );
    let mut m: usize = 1;
    while cand.len() > 0 && m + 1 < k
        invariant
            q == rule_query(
                itemset@,
                count,
                support_entries(*table),
                dataset_size,
                min_confidence,
                min_lift,
            ),
            ascending(itemset@),
            k == itemset@.len(),
            1 <= m < k,
            level_ok(q, cand@, m as int),
            rules_ok(q, rules@, m as int),
        decreases k - m,
    {
        let next = next_level(
            itemset,
            count,
            table,
            dataset_size,
            min_confidence,
            min_lift,
            &cand,
            &mut rules,
            m,
            Ghost(q),
        );
        cand = next;
        m += 1;
    }
    proof {
        assert forall|c: Seq<Item>| q.emitted(c) implies listed(rules@, c) by {
            if c.len() > m {
                lemma_retained_prefix(q, c, m as int);
                assert(holds(cand@, c.take(m as int)));
            }
        }
    }
    rules
}

/// The threshold that an absent one stands for: 0, which every lift
/// reaches.
pub open spec fn lift_or_zero(min_lift: Option<Ratio>) -> Ratio {
    match min_lift {
        Some(ratio) => ratio,
        None => Ratio { numerator: 0, denominator: 1 },
    }
}

/// The itemsets that can be split into two sides: those of two items or
/// more.
pub open spec fn splittable(itemsets: Seq<ItemSet>) -> Seq<ItemSet> {
    itemsets.filter(|set: ItemSet| set.items@.len() > 1)
}

/// `par_iter`, `map` and `collect` of rayon, with
/// [`generate_rules_for_itemset`] as what is done to each itemset.
/// Trusted: the call gives one list for each itemset, in the order of the
/// itemsets, and each list is what that function returned for its itemset.
#[verifier::external_body]
fn rules_in_parallel(
    picked: &Vec<&ItemSet>,
    table: &ItemsetSupport,
    dataset_size: u32,
    min_confidence: Ratio,
    min_lift: Ratio,
) -> (rules: Vec<Vec<Rule>>)
    requires
        forall|j: int| 0 <= j < picked@.len() ==> ascending((#[trigger] picked@[j]).items@),
    ensures
        rules@.len() == picked@.len(),
        forall|j: int|
            0 <= j < rules@.len() ==> is_rule_list(
                rule_query(
                    picked@[j].items@,
                    picked@[j].count,
                    support_entries(*table),
                    dataset_size,
                    min_confidence,
                    min_lift,
                ),
                (#[trigger] rules@[j])@,
            ),
{
    picked.par_iter().map(
        |set| generate_rules_for_itemset(
            &set.items,
            set.count,
            table,
            dataset_size,
            min_confidence,
            min_lift,
        ),
    ).collect()
}

/// The rules of every itemset of two items or more, one list for each, in
/// the order of the itemsets. The supports are those of `itemsets`
/// themselves.
pub fn generate_rules(
    itemsets: &Vec<ItemSet>,
    dataset_size: u32,
    min_confidence: Ratio,
    min_lift: Option<Ratio>,
) -> (rules: Vec<Vec<Rule>>)
    requires
        forall|i: int| 0 <= i < itemsets@.len() ==> ascending((#[trigger] itemsets@[i]).items@),
    ensures
        rules@.len() == splittable(itemsets@).len(),
        forall|j: int|
            0 <= j < rules@.len() ==> is_rule_list(
                rule_query(
                    splittable(itemsets@)[j].items@,
                    splittable(itemsets@)[j].count,
                    support_of(itemsets@),
                    dataset_size,
                    min_confidence,
                    lift_or_zero(min_lift),
                ),
                (#[trigger] rules@[j])@,
            ),
{
    let table = create_support_lookup(itemsets);
    let lift = match min_lift {
        Some(ratio) => ratio,
        None => Ratio::new(0, 1),
    };
    let mut picked: Vec<&ItemSet> = Vec::new();
    let ghost two_sided = |set: ItemSet| set.items@.len() > 1;
    let mut i: usize = 0;
    while i < itemsets.len()
        invariant
            i <= itemsets.len(),
            two_sided == |set: ItemSet| set.items@.len() > 1,
            picked@.len() == itemsets@.take(i as int).filter(two_sided).len(),
            forall|j: int|
                0 <= j < picked@.len() ==> *(#[trigger] picked@[j]) == itemsets@.take(
                    i as int,
                ).filter(two_sided)[j],
            forall|j: int| 0 <= j < picked@.len() ==> ascending((#[trigger] picked@[j]).items@),
            forall|i: int|
                0 <= i < itemsets@.len() ==> ascending((#[trigger] itemsets@[i]).items@),
        decreases itemsets.len() - i,
    {
        proof {
            itemsets@.take(i as int).lemma_filter_push(itemsets@[i as int], two_sided);
            assert(itemsets@.take(i as int).push(itemsets@[i as int]) == itemsets@.take(i + 1));
        }
        if itemsets[i].items.len() > 1 {
            picked.push(&itemsets[i]);
        }
        i += 1;
    }
    assert(itemsets@.take(itemsets.len() as int) == itemsets@);
    rules_in_parallel(&picked, &table, dataset_size, min_confidence, lift)
}

/// What holds of each rule that the search gives: its two sides are
/// ascending, neither is empty, they share no item and together they are
/// the itemset; its counts are those of the table; its confidence and its
/// lift reach the thresholds.
pub proof fn lemma_rules_are_sound(q: RuleQuery, rules: Seq<Rule>, k: int)
    requires
        ascending(q.itemset),
        is_rule_list(q, rules),
        0 <= k < rules.len(),
    ensures
        rules[k].antecedent@.len() > 0,
        rules[k].consequent@.len() > 0,
        ascending(rules[k].antecedent@),
        ascending(rules[k].consequent@),
        forall|x: Item| !(rules[k].antecedent@.contains(x) && rules[k].consequent@.contains(x)),
        forall|x: Item|
            q.itemset.contains(x) <==> (rules[k].antecedent@.contains(x)
                || rules[k].consequent@.contains(x)),
        rules[k].itemset_count == q.count,
        rules[k].dataset_size == q.dataset_size,
        q.table.contains_key(rules[k].antecedent@),
        q.table.contains_key(rules[k].consequent@),
        rules[k].antecedent_count == q.table[rules[k].antecedent@],
        rules[k].consequent_count == q.table[rules[k].consequent@],
        q.min_confidence.reached_by(
            rules[k].itemset_count as int,
            rules[k].antecedent_count as int,
        ),
        q.min_lift.reached_by(
            rules[k].itemset_count * rules[k].dataset_size,
            rules[k].antecedent_count * rules[k].consequent_count,
        ),
{
    let rule = rules[k];
    let c = rule.consequent@;
    assert(q.emitted(c) && q.describes(rule));
    lemma_other_side(q.itemset, c);
    lemma_without(q.itemset, c);
    assert(q.confident(c));
}

/// The rest of the itemset, once a consequent is taken out, can itself
/// stand as one side of a rule.
proof fn lemma_other_side(itemset: Seq<Item>, c: Seq<Item>)
    requires
        ascending(itemset),
        is_consequent(itemset, c),
    ensures
        is_consequent(itemset, without(itemset, c)),
{
    let rest = without(itemset, c);
    lemma_without(itemset, c);
    assert(subset_of(rest, itemset));
    lemma_subset_len(rest, itemset);
    if rest.len() == itemset.len() {
        assert(c.contains(c[0]));
        assert(itemset.contains(c[0]));
        assert(rest.contains(c[0]));
    }
    if rest.len() == 0 {
        assert forall|x: Item| itemset.contains(x) implies c.contains(x) by {
            if !c.contains(x) {
                assert(rest.contains(x));
                let i = choose|i: int| 0 <= i < rest.len() && rest[i] == x;
            }
        }
        lemma_subset_len(itemset, c);
    }
}

/// With a consistent table, a confident consequent is reached by the
/// search: every part of it is confident too.
proof fn lemma_confident_is_retained(q: RuleQuery, c: Seq<Item>)
    requires
        ascending(q.itemset),
        q.consistent(),
        is_consequent(q.itemset, c),
        q.confident(c),
    ensures
        q.retained(c),
    decreases c.len(),
{
    if c.len() > 1 {
        lemma_parts_valid(q, c);
        let c1 = c.drop_last();
        let c2 = c.remove(c.len() - 2);
        lemma_smaller_is_confident(q, c, c1);
        lemma_smaller_is_confident(q, c, c2);
        lemma_confident_is_retained(q, c1);
        lemma_confident_is_retained(q, c2);
    }
}

proof fn lemma_smaller_is_confident(q: RuleQuery, c: Seq<Item>, part: Seq<Item>)
    requires
        ascending(q.itemset),
        q.consistent(),
        is_consequent(q.itemset, c),
        q.confident(c),
        ascending(part),
        subset_of(part, c),
        1 <= part.len(),
    ensures
        is_consequent(q.itemset, part),
        q.confident(part),
{
    lemma_subset_len(part, c);
    assert(is_consequent(q.itemset, part));
    lemma_other_side(q.itemset, c);
    lemma_other_side(q.itemset, part);
    lemma_without(q.itemset, c);
    lemma_without(q.itemset, part);
    let a = q.antecedent(c);
    let b = q.antecedent(part);
    assert(subset_of(a, b));
    assert(q.table[a] >= q.table[b]);
    let num = q.min_confidence.numerator as int;
    let ta = q.table[a] as int;
    let tb = q.table[b] as int;
    assert(num * ta >= num * tb) by (nonlinear_arith)
        requires
            num >= 0,
            ta >= tb,
    ;
}

/// With a consistent table the search gives the same rules as trying every
/// split of the itemset: a consequent has a rule exactly when its confidence
/// and its lift reach the thresholds.
pub proof fn lemma_rules_are_exhaustive(q: RuleQuery, rules: Seq<Rule>)
    requires
        ascending(q.itemset),
        q.consistent(),
        is_rule_list(q, rules),
    ensures
        forall|c: Seq<Item>|
            is_consequent(q.itemset, c) ==> (listed(rules, c) <==> (q.confident(c) && q.lifted(c))),
{
    assert forall|c: Seq<Item>| is_consequent(q.itemset, c) implies (listed(rules, c) <==> (
    q.confident(c) && q.lifted(c))) by {
        if listed(rules, c) {
            let k = choose|k: int| 0 <= k < rules.len() && (#[trigger] rules[k]).consequent@ == c;
            assert(q.emitted(rules[k].consequent@));
            assert(q.confident(c));
        }
        if q.confident(c) && q.lifted(c) {
            lemma_confident_is_retained(q, c);
            assert(q.emitted(c));
        }
    }
}

} // verus!
