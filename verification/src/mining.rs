use vstd::prelude::*;
use vstd::string::StrSliceExecFns;
use crate::dataset::{
    any, has_all, has_item, item_weight, lemma_measure_push, measure, support_count,
    total_weight, valid_log, valid_transaction, Log,
};
use crate::fp_growth::{
    fp_growth, lemma_frequent_is_mined, lemma_mined_is_frequent, lemma_mined_once,
    lemma_support_antitone, mined, ordered_by, rises,
};
use crate::fptree::{items_counted, lemma_item_room, lemma_item_step, FPTree};
use crate::generate_rules::{
    generate_rules, is_consequent, is_rule_list, lemma_rules_are_exhaustive, lemma_support_of,
    lift_or_zero, listed, rule_query, splittable, support_of,
};
use crate::vec_sets::subset_of;
use crate::item::Item;
use crate::item_counter::ItemCounter;
use crate::itemizer::{id_in, Itemizer};
use crate::itemset::{itemset_views, ItemSet};
use crate::ratio::Ratio;
use crate::rule::Rule;
use crate::text::rising_names;
use crate::text::{all_space, tokens};
use crate::transaction_reader::{learned, lemma_place_kept, parse_transaction};
use crate::vec_sets::ascending;

verus! {

/// Why a dataset cannot be mined.
#[derive(Copy, Clone, Debug, PartialEq, Eq, Structural)]
pub enum MiningError {
    /// The identifiers of the items would not fit their type.
    TooManyItems,
    /// The number of transactions would not fit the type of a count.
    TooManyTransactions,
}

/// `c` is the count that the support threshold asks for: the least count,
/// but at least 1, whose share of `n` transactions reaches the threshold,
/// or the largest count there is where none does.
pub open spec fn is_min_count(min_support: Ratio, n: u32, c: u32) -> bool {
    &&& c >= 1
    &&& (c == u32::MAX || c * min_support.denominator >= min_support.numerator * n)
    &&& (c == 1 || (c - 1) * min_support.denominator < min_support.numerator * n)
}

/// The count that the support threshold asks for among `num_transactions`
/// transactions.
pub fn min_count(min_support: Ratio, num_transactions: u32) -> (c: u32)
    ensures
        is_min_count(min_support, num_transactions, c),
{
    let limit: u128 = 0xffff_ffff_ffff_ffff;
    assert(min_support.numerator * num_transactions <= limit * limit) by (nonlinear_arith)
        requires
            0 <= min_support.numerator <= limit,
            0 <= num_transactions <= limit,
    ;
    let p: u128 = (min_support.numerator as u128) * (num_transactions as u128);
    let d: u128 = min_support.denominator as u128;
    if d == 0 {
        assert(1 * 0 == 0 && (0xffff_ffff - 1) * 0 == 0) by (nonlinear_arith);
        if p == 0 {
            return 1;
        } else {
            return u32::MAX;
        }
    }
    let q = p / d;
    let r = p % d;
    proof {
        vstd::arithmetic::div_mod::lemma_fundamental_div_mod(p as int, d as int);
        vstd::arithmetic::div_mod::lemma_mod_pos_bound(p as int, d as int);
        vstd::arithmetic::div_mod::lemma_div_pos_is_pos(p as int, d as int);
        assert(q <= p) by (nonlinear_arith)
            requires
                p == d * q + r,
                d >= 1,
                r >= 0,
                q >= 0,
        ;
    }
    let needed: u128 = if r == 0 {
        q
    } else {
        q + 1
    };
    proof {
        assert(needed * d >= p && (needed >= 1 ==> (needed - 1) * d < p)) by (nonlinear_arith)
            requires
                p == d * q + r,
                0 <= r < d,
                r == 0 ==> needed == q,
                r != 0 ==> needed == q + 1,
        ;
    }
    if needed < 1 {
        assert(1 * d >= p) by (nonlinear_arith)
            requires
                needed * d >= p,
                needed == 0,
                d >= 0,
        ;
        1
    } else if needed > 0xffff_ffff {
        assert((0xffff_ffff - 1) * d < p) by (nonlinear_arith)
            requires
                (needed - 1) * d < p,
                needed > 0xffff_ffff,
                d >= 0,
        ;
        u32::MAX
    } else {
        needed as u32
    }
}

/// The lines as sequences of characters.
pub open spec fn line_views(lines: Seq<String>) -> Seq<Seq<char>> {
    Seq::new(lines.len(), |i: int| lines[i]@)
}

/// The names that are known once the lines have been read.
pub open spec fn names_after(names: Seq<Seq<char>>, lines: Seq<Seq<char>>) -> Seq<Seq<char>>
    decreases lines.len(),
{
    if lines.len() == 0 {
        names
    } else if all_space(lines.last()) {
        names_after(names, lines.drop_last())
    } else {
        learned(names_after(names, lines.drop_last()), tokens(lines.last()))
    }
}

/// Reading the lines gives no name an identifier that does not fit.
pub open spec fn fits(names: Seq<Seq<char>>, lines: Seq<Seq<char>>) -> bool
    decreases lines.len(),
{
    lines.len() == 0 || (fits(names, lines.drop_last()) && names_after(
        names,
        lines.drop_last(),
    ).len() + lines.last().len() + 3 <= u32::MAX)
}

/// `t` is the transaction of `line`: the identifiers of its fields, each
/// once, in rising order.
pub open spec fn is_line_transaction(names: Seq<Seq<char>>, line: Seq<char>, t: Seq<Item>) -> bool {
    &&& ascending(t)
    &&& forall|x: Item|
        t.contains(x) <==> exists|k: int|
            0 <= k < tokens(line).len() && x.id == id_in(names, #[trigger] tokens(line)[k])
}

/// `transactions` are the transactions of the lines that are not white
/// space alone, in the order of the lines.
pub open spec fn is_reading(
    names: Seq<Seq<char>>,
    lines: Seq<Seq<char>>,
    transactions: Seq<Vec<Item>>,
) -> bool
    decreases lines.len(),
{
    if lines.len() == 0 {
        transactions.len() == 0
    } else if all_space(lines.last()) {
        is_reading(names, lines.drop_last(), transactions)
    } else {
        transactions.len() > 0 && is_reading(names, lines.drop_last(), transactions.drop_last())
            && is_line_transaction(names, lines.last(), transactions.last()@)
    }
}

/// Every field of every line is a known name.
pub open spec fn knows(names: Seq<Seq<char>>, lines: Seq<Seq<char>>) -> bool {
    forall|i: int, k: int|
        0 <= i < lines.len() && !all_space(lines[i]) && 0 <= k < tokens(lines[i]).len()
            ==> names.contains(#[trigger] tokens(lines[i])[k])
}

/// `names` stands at the start of `more`.
pub open spec fn starts(names: Seq<Seq<char>>, more: Seq<Seq<char>>) -> bool {
    names.len() <= more.len() && forall|i: int| 0 <= i < names.len() ==> names[i] == more[i]
}

pub proof fn lemma_learned(names: Seq<Seq<char>>, seen: Seq<Seq<char>>)
    ensures
        starts(names, learned(names, seen)),
        learned(names, seen).len() <= names.len() + seen.len(),
        forall|k: int| 0 <= k < seen.len() ==> learned(names, seen).contains(#[trigger] seen[k]),
        forall|name: Seq<char>|
            learned(names, seen).contains(name) ==> names.contains(name) || seen.contains(name),
        (forall|k: int| 0 <= k < seen.len() ==> names.contains(#[trigger] seen[k])) ==> learned(
            names,
            seen,
        ) == names,
    decreases seen.len(),
{
    if seen.len() > 0 {
        let rest = seen.drop_last();
        let before = learned(names, rest);
        let after = learned(names, seen);
        lemma_learned(names, rest);
        assert forall|k: int| 0 <= k < seen.len() implies after.contains(#[trigger] seen[k]) by {
            if k < rest.len() {
                assert(rest[k] == seen[k]);
                assert(before.contains(rest[k]));
                let i = choose|i: int| 0 <= i < before.len() && before[i] == seen[k];
                assert(after[i] == seen[k]);
            } else if !before.contains(seen.last()) {
                assert(after[after.len() - 1] == seen[k]);
            }
        }
        assert forall|name: Seq<char>| after.contains(name) implies names.contains(name)
            || seen.contains(name) by {
            let i = choose|i: int| 0 <= i < after.len() && after[i] == name;
            if i < before.len() {
                assert(before[i] == name);
                assert(before.contains(name));
                if rest.contains(name) {
                    let j = choose|j: int| 0 <= j < rest.len() && rest[j] == name;
                    assert(seen[j] == name);
                }
            } else {
                assert(seen[seen.len() - 1] == name);
            }
        }
        if forall|k: int| 0 <= k < seen.len() ==> names.contains(#[trigger] seen[k]) {
            assert forall|k: int| 0 <= k < rest.len() implies names.contains(
                #[trigger] rest[k],
            ) by {
                assert(rest[k] == seen[k]);
            }
            assert(names.contains(seen[seen.len() - 1]));
        }
    }
}

proof fn lemma_line_kept(
    names: Seq<Seq<char>>,
    more: Seq<Seq<char>>,
    line: Seq<char>,
    t: Seq<Item>,
)
    requires
        is_line_transaction(names, line, t),
        starts(names, more),
        more.no_duplicates(),
        forall|k: int| 0 <= k < tokens(line).len() ==> names.contains(#[trigger] tokens(line)[k]),
    ensures
        is_line_transaction(more, line, t),
{
    let toks = tokens(line);
    assert forall|k: int| 0 <= k < toks.len() implies id_in(more, #[trigger] toks[k]) == id_in(
        names,
        toks[k],
    ) by {
        lemma_place_kept(names, more, toks[k]);
    }
    assert forall|x: Item|
        t.contains(x) <==> exists|k: int|
            0 <= k < toks.len() && x.id == id_in(more, #[trigger] toks[k]) by {
        if t.contains(x) {
            let k = choose|k: int| 0 <= k < toks.len() && x.id == id_in(names, #[trigger] toks[k]);
            assert(x.id == id_in(more, toks[k]));
        }
        if exists|k: int| 0 <= k < toks.len() && x.id == id_in(more, #[trigger] toks[k]) {
            let k = choose|k: int| 0 <= k < toks.len() && x.id == id_in(more, #[trigger] toks[k]);
            assert(x.id == id_in(names, toks[k]));
        }
    }
}

proof fn lemma_reading_kept(
    names: Seq<Seq<char>>,
    more: Seq<Seq<char>>,
    lines: Seq<Seq<char>>,
    transactions: Seq<Vec<Item>>,
)
    requires
        is_reading(names, lines, transactions),
        starts(names, more),
        more.no_duplicates(),
        knows(names, lines),
    ensures
        is_reading(more, lines, transactions),
        knows(more, lines),
    decreases lines.len(),
{
    assert forall|i: int, k: int|
        0 <= i < lines.len() && !all_space(lines[i]) && 0 <= k < tokens(
            lines[i],
        ).len() implies more.contains(#[trigger] tokens(lines[i])[k]) by {
        let name = tokens(lines[i])[k];
        assert(names.contains(name));
        let at = choose|at: int| 0 <= at < names.len() && names[at] == name;
        assert(more[at] == name);
    }
    if lines.len() > 0 {
        let rest = lines.drop_last();
        assert forall|i: int, k: int|
            0 <= i < rest.len() && !all_space(rest[i]) && 0 <= k < tokens(
                rest[i],
            ).len() implies names.contains(#[trigger] tokens(rest[i])[k]) by {
            assert(rest[i] == lines[i]);
        }
        if all_space(lines.last()) {
            lemma_reading_kept(names, more, rest, transactions);
        } else {
            lemma_reading_kept(names, more, rest, transactions.drop_last());
            assert(lines[lines.len() - 1] == lines.last());
            lemma_line_kept(names, more, lines.last(), transactions.last()@);
        }
    }
}

proof fn lemma_fits_start(names: Seq<Seq<char>>, lines: Seq<Seq<char>>, k: int)
    requires
        0 <= k <= lines.len(),
        fits(names, lines),
    ensures
        fits(names, lines.take(k)),
    decreases lines.len(),
{
    if k == lines.len() {
        assert(lines.take(k) =~= lines);
    } else {
        lemma_fits_start(names, lines.drop_last(), k);
        assert(lines.drop_last().take(k) =~= lines.take(k));
    }
}

/// Lines whose fields are all known add no name.
pub proof fn lemma_names_known(names: Seq<Seq<char>>, lines: Seq<Seq<char>>)
    requires
        knows(names, lines),
    ensures
        names_after(names, lines) == names,
    decreases lines.len(),
{
    if lines.len() > 0 {
        let rest = lines.drop_last();
        assert forall|i: int, k: int|
            0 <= i < rest.len() && !all_space(rest[i]) && 0 <= k < tokens(
                rest[i],
            ).len() implies names.contains(#[trigger] tokens(rest[i])[k]) by {
            assert(rest[i] == lines[i]);
        }
        lemma_names_known(names, rest);
        if !all_space(lines.last()) {
            assert(lines[lines.len() - 1] == lines.last());
            lemma_learned(names, tokens(lines.last()));
        }
    }
}

/// Reads the lines as transactions, one for each line that is not white
/// space alone. The strings of the items get their identifiers from
/// `itemizer`.
pub fn read_transactions(lines: &Vec<String>, itemizer: &mut Itemizer) -> (read: Result<
    Vec<Vec<Item>>,
    MiningError,
>)
    requires
        old(itemizer).wf(),
    ensures
        final(itemizer).wf(),
        read is Ok <==> fits(old(itemizer)@, line_views(lines@)),
        read is Err ==> read == Err::<Vec<Vec<Item>>, MiningError>(MiningError::TooManyItems),
        read is Ok ==> final(itemizer)@ == names_after(old(itemizer)@, line_views(lines@)),
        read is Ok ==> is_reading(final(itemizer)@, line_views(lines@), read->Ok_0@),
        read is Ok ==> knows(final(itemizer)@, line_views(lines@)),
        read is Ok ==> starts(old(itemizer)@, final(itemizer)@),
{
    let ghost names = itemizer@;
    let ghost all = line_views(lines@);
    let mut transactions: Vec<Vec<Item>> = Vec::new();
    let mut i: usize = 0;
    proof {
        assert(all.take(0) =~= Seq::<Seq<char>>::empty());
    }
    while i < lines.len()
        invariant
            all == line_views(lines@),
            names == old(itemizer)@,
            i <= lines.len(),
            itemizer.wf(),
            itemizer@ == names_after(names, all.take(i as int)),
            fits(names, all.take(i as int)),
            is_reading(itemizer@, all.take(i as int), transactions@),
            knows(itemizer@, all.take(i as int)),
            starts(names, itemizer@),
        decreases lines.len() - i,
    {
        let line = lines[i].as_str();
        let ghost known = itemizer@;
        let ghost upto = all.take(i as int);
        let ghost next = all.take(i + 1);
        proof {
            assert(next.drop_last() =~= upto);
            assert(next.last() == line@);
        }
        let room: u128 = (itemizer.len() as u128) + (line.unicode_len() as u128) + 3;
        if room > 0xffff_ffff {
            proof {
                assert(names_after(names, next.drop_last()) == known);
                assert(next.last().len() == line@.len());
                assert(!fits(names, next));
                if fits(names, all) {
                    lemma_fits_start(names, all, i + 1);
                    assert(fits(names, next));
                }
                assert(!fits(names, all));
            }
            return Err(MiningError::TooManyItems);
        }
        let found = parse_transaction(line, itemizer);
        proof {
            itemizer.lemma_names_distinct();
            if !all_space(line@) {
                lemma_learned(known, tokens(line@));
                lemma_reading_kept(known, itemizer@, upto, transactions@);
            }
            assert(starts(names, itemizer@));
        }
        match found {
            Some(transaction) => {
                let ghost before = transactions@;
                transactions.push(transaction);
                proof {
                    assert(transactions@.drop_last() =~= before);
                    assert forall|a: int, k: int|
                        0 <= a < next.len() && !all_space(next[a]) && 0 <= k < tokens(
                            next[a],
                        ).len() implies itemizer@.contains(#[trigger] tokens(next[a])[k]) by {
                        if a < upto.len() {
                            assert(next[a] == upto[a]);
                        }
                    }
                }
            },
            None => {
                proof {
                    assert forall|a: int, k: int|
                        0 <= a < next.len() && !all_space(next[a]) && 0 <= k < tokens(
                            next[a],
                        ).len() implies itemizer@.contains(#[trigger] tokens(next[a])[k]) by {
                        if a < upto.len() {
                            assert(next[a] == upto[a]);
                        }
                    }
                }
            },
        }
        i += 1;
    }
    proof {
        assert(all.take(lines@.len() as int) =~= all);
    }
    Ok(transactions)
}


/// The transactions as a dataset, each with the weight 1.
pub open spec fn unit_log(transactions: Seq<Vec<Item>>) -> Log {
    Seq::new(transactions.len(), |i: int| (transactions[i]@, 1u32))
}

proof fn lemma_unit_log(transactions: Seq<Vec<Item>>, i: int)
    requires
        0 <= i < transactions.len(),
    ensures
        unit_log(transactions.take(i + 1)) == unit_log(transactions.take(i)).push(
            (transactions[i]@, 1u32),
        ),
        total_weight(unit_log(transactions.take(i))) == i,
        total_weight(unit_log(transactions.take(i + 1))) == i + 1,
    decreases i,
{
    let upto = unit_log(transactions.take(i));
    let next = unit_log(transactions.take(i + 1));
    assert(next =~= upto.push((transactions[i]@, 1u32)));
    if i > 0 {
        lemma_unit_log(transactions, i - 1);
    } else {
        assert(upto =~= Seq::<(Seq<Item>, u32)>::empty());
    }
    lemma_measure_push(upto, (transactions[i]@, 1u32), any());
}

/// Counts, for each item, the transactions that hold it.
pub fn count_item_frequencies(transactions: &Vec<Vec<Item>>) -> (counted: (ItemCounter, usize))
    requires
        forall|i: int|
            0 <= i < transactions@.len() ==> valid_transaction((#[trigger] transactions@[i])@),
        transactions@.len() <= u32::MAX,
    ensures
        counted.1 == transactions@.len(),
        forall|item: Item|
            #[trigger] counted.0.count(item) == item_weight(unit_log(transactions@), item),
{
    let mut item_count = ItemCounter::new();
    let mut i: usize = 0;
    proof {
        assert(unit_log(transactions@.take(0)) =~= Seq::<(Seq<Item>, u32)>::empty());
    }
    while i < transactions.len()
        invariant
            i <= transactions@.len(),
            transactions@.len() <= u32::MAX,
            forall|i: int|
                0 <= i < transactions@.len() ==> valid_transaction((#[trigger] transactions@[i])@),
            items_counted(item_count, unit_log(transactions@.take(i as int)), Seq::empty(), 0),
        decreases transactions@.len() - i,
    {
        let ghost log = unit_log(transactions@.take(i as int));
        let ghost t = transactions@[i as int]@;
        let mut j: usize = 0;
        proof {
            lemma_unit_log(transactions@, i as int);
            assert(t.take(0) =~= Seq::<Item>::empty());
        }
        while j < transactions[i].len()
            invariant
                i < transactions@.len(),
                t == transactions@[i as int]@,
                valid_transaction(t),
                j <= t.len(),
                log == unit_log(transactions@.take(i as int)),
                total_weight(log) == i,
                transactions@.len() <= u32::MAX,
                items_counted(item_count, log, t.take(j as int), 1),
            decreases t.len() - j,
        {
            let item = transactions[i][j];
            let ghost before = item_count;
            proof {
                lemma_item_room(item_count, log, t, j as int, 1);
            }
            item_count.add(&item, 1);
            proof {
                lemma_item_step(before, item_count, log, t, j as int, 1);
            }
            j += 1;
        }
        proof {
            assert(t.take(t.len() as int) =~= t);
            let next = unit_log(transactions@.take(i + 1));
            assert forall|item: Item|
                #[trigger] item_count.count(item) == item_weight(next, item) + if Seq::<
                    Item,
                >::empty().contains(item) {
                    0int
                } else {
                    0
                } by {
                lemma_measure_push(log, (t, 1u32), has_item(item));
            }
        }
        i += 1;
    }
    proof {
        assert(transactions@.take(transactions@.len() as int) =~= transactions@);
    }
    (item_count, transactions.len())
}

/// The items that stay in a transaction: those whose frequency is above
/// `min_count`.
pub open spec fn kept_by(counter: ItemCounter, min_count: u32) -> spec_fn(Item) -> bool {
    |x: Item| counter.count(x) > min_count
}

/// `s` is `t` as the tree takes it: the frequent items of `t`, by falling
/// frequency, the larger identifier first among equals.
pub open spec fn is_canonical(
    counter: ItemCounter,
    min_count: u32,
    t: Seq<Item>,
    s: Seq<Item>,
) -> bool {
    counter.sorted_descending(s) && s.to_multiset() == t.filter(
        kept_by(counter, min_count),
    ).to_multiset()
}

/// `log` holds, for each transaction, its frequent items in the order of
/// the tree, with the weight 1.
pub open spec fn is_dataset_of(
    counter: ItemCounter,
    min_count: u32,
    transactions: Seq<Vec<Item>>,
    log: Log,
) -> bool {
    &&& log.len() == transactions.len()
    &&& forall|i: int|
        0 <= i < log.len() ==> (#[trigger] log[i]).1 == 1 && is_canonical(
            counter,
            min_count,
            transactions[i]@,
            log[i].0,
        )
}

/// The rank by which the transactions of a tree are ordered: the more
/// frequent item first, the larger identifier first among equals.
pub open spec fn rank_of(counter: ItemCounter) -> spec_fn(Item) -> int {
    |x: Item| -(counter.count(x) * 0x1_0000_0000 + x.id)
}

proof fn lemma_filter_valid(t: Seq<Item>, keep: spec_fn(Item) -> bool)
    requires
        valid_transaction(t),
    ensures
        valid_transaction(t.filter(keep)),
        forall|x: Item| t.filter(keep).contains(x) ==> t.contains(x),
    decreases t.len(),
{
    reveal(Seq::filter);
    if t.len() > 0 {
        let rest = t.drop_last();
        assert forall|a: int, b: int| 0 <= a < rest.len() && 0 <= b < rest.len() && a
            != b implies rest[a] != rest[b] by {
            assert(rest[a] == t[a] && rest[b] == t[b]);
        }
        assert forall|k: int| 0 <= k < rest.len() implies (#[trigger] rest[k]).id != 0 by {
            assert(rest[k] == t[k]);
        }
        lemma_filter_valid(rest, keep);
        let f0 = rest.filter(keep);
        let f = t.filter(keep);
        assert forall|x: Item| f.contains(x) implies t.contains(x) by {
            let k = choose|k: int| 0 <= k < f.len() && f[k] == x;
            if k < f0.len() {
                assert(f0[k] == x);
                assert(f0.contains(x));
                assert(rest.contains(x));
                let i = choose|i: int| 0 <= i < rest.len() && rest[i] == x;
                assert(t[i] == x);
            } else {
                assert(t[t.len() - 1] == x);
            }
        }
        if keep(t.last()) {
            assert forall|a: int, b: int| 0 <= a < f.len() && 0 <= b < f.len() && a != b implies f[a]
                != f[b] by {
                if a < f0.len() && b < f0.len() {
                    assert(f[a] == f0[a] && f[b] == f0[b]);
                } else {
                    let inner = if a < f0.len() {
                        a
                    } else {
                        b
                    };
                    assert(f0.contains(f0[inner]));
                    assert(rest.contains(f0[inner]));
                    let i = choose|i: int| 0 <= i < rest.len() && rest[i] == f0[inner];
                    assert(t[i] == f0[inner]);
                }
            }
            assert forall|k: int| 0 <= k < f.len() implies (#[trigger] f[k]).id != 0 by {
                if k < f0.len() {
                    assert(f[k] == f0[k]);
                } else {
                    assert(f[k] == t[t.len() - 1]);
                }
            }
        }
    }
}

proof fn lemma_reordered_valid(before: Seq<Item>, after: Seq<Item>)
    requires
        valid_transaction(before),
        after.to_multiset() == before.to_multiset(),
    ensures
        valid_transaction(after),
{
    broadcast use vstd::seq_lib::group_to_multiset_ensures;

    before.lemma_multiset_has_no_duplicates();
    after.lemma_multiset_has_no_duplicates_conv();
    assert forall|k: int| 0 <= k < after.len() implies (#[trigger] after[k]).id != 0 by {
        assert(after.contains(after[k]));
        assert(after.to_multiset().count(after[k]) > 0);
        assert(before.contains(after[k]));
        let i = choose|i: int| 0 <= i < before.len() && before[i] == after[k];
    }
}

proof fn lemma_sorted_rises(counter: ItemCounter, s: Seq<Item>)
    requires
        counter.sorted_descending(s),
        s.no_duplicates(),
    ensures
        rises(s, rank_of(counter)),
{
    let rank = rank_of(counter);
    assert forall|a: int, b: int| 0 <= a < b < s.len() implies rank(s[a]) < rank(s[b]) by {
        assert(!counter.precedes(s[b], s[a]));
        assert(s[a] != s[b]);
        assert(s[a].id != s[b].id);
    }
}

/// Builds the tree of the transactions: of each transaction the items
/// whose frequency is above `min_count` are kept, brought into the order of
/// falling frequency and inserted with the weight 1.
pub fn build_tree(transactions: &Vec<Vec<Item>>, item_count: &ItemCounter, min_count: u32) -> (tree:
    FPTree)
    requires
        forall|i: int|
            0 <= i < transactions@.len() ==> valid_transaction((#[trigger] transactions@[i])@),
        transactions@.len() <= u32::MAX,
    ensures
        tree.wf(),
        is_dataset_of(*item_count, min_count, transactions@, tree@),
        ordered_by(tree@, rank_of(*item_count)),
        total_weight(tree@) == transactions@.len(),
{
    let mut tree = FPTree::new();
    let mut i: usize = 0;
    let ghost keep = kept_by(*item_count, min_count);
    proof {
        assert(total_weight(tree@) == 0);
    }
    while i < transactions.len()
        invariant
            i <= transactions@.len(),
            transactions@.len() <= u32::MAX,
            keep == kept_by(*item_count, min_count),
            forall|i: int|
                0 <= i < transactions@.len() ==> valid_transaction((#[trigger] transactions@[i])@),
            tree.wf(),
            tree@.len() == i,
            total_weight(tree@) == i,
            ordered_by(tree@, rank_of(*item_count)),
            forall|k: int|
                0 <= k < i ==> (#[trigger] tree@[k]).1 == 1 && is_canonical(
                    *item_count,
                    min_count,
                    transactions@[k]@,
                    tree@[k].0,
                ),
        decreases transactions@.len() - i,
    {
        let ghost t = transactions@[i as int]@;
        let mut frequent: Vec<Item> = Vec::new();
        let mut j: usize = 0;
        proof {
            assert(t.take(0) =~= Seq::<Item>::empty());
            reveal(Seq::filter);
        }
        while j < transactions[i].len()
            invariant
                i < transactions@.len(),
                t == transactions@[i as int]@,
                j <= t.len(),
                keep == kept_by(*item_count, min_count),
                frequent@ == t.take(j as int).filter(keep),
            decreases t.len() - j,
        {
            let item = transactions[i][j];
            proof {
                t.take(j as int).lemma_filter_push(item, keep);
                assert(t.take(j as int).push(item) =~= t.take(j + 1));
            }
            if item_count.get(&item) > min_count {
                frequent.push(item);
            }
            j += 1;
        }
        let ghost filtered = frequent@;
        proof {
            assert(t.take(t.len() as int) =~= t);
            lemma_filter_valid(t, keep);
        }
        item_count.sort_descending(&mut frequent);
        let ghost log = tree@;
        proof {
            lemma_reordered_valid(filtered, frequent@);
            lemma_sorted_rises(*item_count, frequent@);
            lemma_measure_push(log, (frequent@, 1u32), any());
        }
        tree.insert(frequent.as_slice(), 1);
        proof {
            assert forall|k: int| 0 <= k < tree@.len() implies rises(
                (#[trigger] tree@[k]).0,
                rank_of(*item_count),
            ) by {
                if k < log.len() {
                    assert(tree@[k] == log[k]);
                }
            }
            assert forall|k: int| 0 <= k < i + 1 implies (#[trigger] tree@[k]).1 == 1
                && is_canonical(*item_count, min_count, transactions@[k]@, tree@[k].0) by {
                if k < i {
                    assert(tree@[k] == log[k]);
                }
            }
        }
        i += 1;
    }
    tree
}


/// How many lines are not white space alone.
pub open spec fn filled(lines: Seq<Seq<char>>) -> nat
    decreases lines.len(),
{
    if lines.len() == 0 {
        0
    } else if all_space(lines.last()) {
        filled(lines.drop_last())
    } else {
        filled(lines.drop_last()) + 1
    }
}

/// With `n` names known, no line is so long that the identifiers of its
/// fields might not fit.
pub open spec fn fits_known(n: nat, lines: Seq<Seq<char>>) -> bool {
    forall|i: int| 0 <= i < lines.len() ==> n + (#[trigger] lines[i]).len() + 3 <= u32::MAX
}

/// The lines can be mined: the identifiers of the items and the number of
/// transactions fit their types.
pub open spec fn can_mine(lines: Seq<Seq<char>>) -> bool {
    &&& fits(Seq::empty(), lines)
    &&& filled(lines) <= u32::MAX
    &&& fits_known(names_after(Seq::empty(), lines).len(), lines)
}

/// In how many of the lines that are not white space alone `name` is a
/// field.
pub open spec fn line_frequency(lines: Seq<Seq<char>>, name: Seq<char>) -> nat
    decreases lines.len(),
{
    if lines.len() == 0 {
        0
    } else if !all_space(lines.last()) && tokens(lines.last()).contains(name) {
        line_frequency(lines.drop_last(), name) + 1
    } else {
        line_frequency(lines.drop_last(), name)
    }
}

/// What mining a dataset gives.
pub struct Mining {
    /// The names of the items; the identifiers rise as the names do.
    pub itemizer: Itemizer,
    /// The frequencies of the items.
    pub item_count: ItemCounter,
    /// The transactions, one for each line that is not white space alone.
    pub transactions: Vec<Vec<Item>>,
    /// The number of transactions.
    pub num_transactions: u32,
    /// The count that an itemset must exceed to be frequent.
    pub min_count: u32,
    /// The tree of the frequent items of the transactions.
    pub tree: FPTree,
    /// The frequent itemsets.
    pub itemsets: Vec<ItemSet>,
    /// The rules, one list for each frequent itemset of two items or more.
    pub rules: Vec<Vec<Rule>>,
}

impl Mining {
    /// This is what mining `lines` with the three thresholds gives.
    pub open spec fn is_result_of(
        self,
        lines: Seq<Seq<char>>,
        min_support: Ratio,
        min_confidence: Ratio,
        min_lift: Option<Ratio>,
    ) -> bool {
        &&& self.itemizer.wf()
        &&& rising_names(self.itemizer@)
        &&& self.itemizer@.to_multiset() == names_after(Seq::empty(), lines).to_multiset()
        &&& is_reading(self.itemizer@, lines, self.transactions@)
        &&& self.num_transactions == self.transactions@.len()
        &&& self.num_transactions == filled(lines)
        &&& is_min_count(min_support, self.num_transactions, self.min_count)
        &&& forall|item: Item|
            #[trigger] self.item_count.count(item) == item_weight(
                unit_log(self.transactions@),
                item,
            )
        &&& forall|k: int|
            0 <= k < self.itemizer@.len() ==> self.item_count.count(Item { id: (k + 1) as u32 })
                == line_frequency(lines, #[trigger] self.itemizer@[k])
        &&& self.tree.wf()
        &&& is_dataset_of(self.item_count, self.min_count, self.transactions@, self.tree@)
        &&& itemset_views(self.itemsets@) == mined(
            self.tree@,
            self.min_count,
            Seq::empty(),
            self.num_transactions,
        )
        &&& self.rules@.len() == splittable(self.itemsets@).len()
        &&& forall|j: int|
            0 <= j < self.rules@.len() ==> is_rule_list(
                rule_query(
                    splittable(self.itemsets@)[j].items@,
                    splittable(self.itemsets@)[j].count,
                    support_of(self.itemsets@),
                    self.num_transactions,
                    min_confidence,
                    lift_or_zero(min_lift),
                ),
                (#[trigger] self.rules@[j])@,
            )
    }
}

proof fn lemma_reading(names: Seq<Seq<char>>, lines: Seq<Seq<char>>, transactions: Seq<Vec<Item>>)
    requires
        is_reading(names, lines, transactions),
        knows(names, lines),
    ensures
        transactions.len() == filled(lines),
        forall|i: int|
            0 <= i < transactions.len() ==> valid_transaction((#[trigger] transactions[i])@),
    decreases lines.len(),
{
    if lines.len() > 0 {
        let rest = lines.drop_last();
        assert forall|i: int, k: int|
            0 <= i < rest.len() && !all_space(rest[i]) && 0 <= k < tokens(
                rest[i],
            ).len() implies names.contains(#[trigger] tokens(rest[i])[k]) by {
            assert(rest[i] == lines[i]);
        }
        if all_space(lines.last()) {
            lemma_reading(names, rest, transactions);
        } else {
            let earlier = transactions.drop_last();
            lemma_reading(names, rest, earlier);
            let t = transactions.last()@;
            let line = lines.last();
            assert(lines[lines.len() - 1] == line);
            assert forall|k: int| 0 <= k < t.len() implies (#[trigger] t[k]).id != 0 by {
                assert(t.contains(t[k]));
                let f = choose|f: int|
                    0 <= f < tokens(line).len() && t[k].id == id_in(names, #[trigger] tokens(line)[f]);
                assert(names.contains(tokens(line)[f]));
            }
            assert forall|i: int| 0 <= i < transactions.len() implies valid_transaction(
                (#[trigger] transactions[i])@,
            ) by {
                if i < earlier.len() {
                    assert(earlier[i] == transactions[i]);
                }
            }
        }
    }
}

/// An item is held by as many transactions as there are lines with its
/// name among their fields.
proof fn lemma_frequency(
    names: Seq<Seq<char>>,
    lines: Seq<Seq<char>>,
    transactions: Seq<Vec<Item>>,
    item: Item,
)
    requires
        is_reading(names, lines, transactions),
        knows(names, lines),
        names.no_duplicates(),
    ensures
        item_weight(unit_log(transactions), item) == if 1 <= item.id <= names.len() {
            line_frequency(lines, names[item.id - 1])
        } else {
            0
        },
    decreases lines.len(),
{
    if lines.len() == 0 {
        assert(unit_log(transactions) =~= Seq::<(Seq<Item>, u32)>::empty());
    } else {
        let rest = lines.drop_last();
        assert forall|i: int, k: int|
            0 <= i < rest.len() && !all_space(rest[i]) && 0 <= k < tokens(
                rest[i],
            ).len() implies names.contains(#[trigger] tokens(rest[i])[k]) by {
            assert(rest[i] == lines[i]);
        }
        if all_space(lines.last()) {
            lemma_frequency(names, rest, transactions, item);
        } else {
            let earlier = transactions.drop_last();
            let t = transactions.last()@;
            let toks = tokens(lines.last());
            lemma_frequency(names, rest, earlier, item);
            assert(lines[lines.len() - 1] == lines.last());
            assert(unit_log(transactions) =~= unit_log(earlier).push((t, 1u32)));
            lemma_measure_push(unit_log(earlier), (t, 1u32), has_item(item));
            if t.contains(item) {
                let k = choose|k: int|
                    0 <= k < toks.len() && item.id == id_in(names, #[trigger] toks[k]);
                assert(names.contains(toks[k]));
                let at = names.index_of(toks[k]);
                assert(names[at] == toks[k]);
                assert(toks.contains(names[item.id - 1]));
            }
            if 1 <= item.id <= names.len() && toks.contains(names[item.id - 1]) {
                let k = choose|k: int| 0 <= k < toks.len() && toks[k] == names[item.id - 1];
                let at = names.index_of(toks[k]);
                assert(names[at] == toks[k]);
                assert(item.id == id_in(names, toks[k]));
                assert(t.contains(item));
            }
        }
    }
}

proof fn lemma_fits_known(names: Seq<Seq<char>>, lines: Seq<Seq<char>>)
    requires
        knows(names, lines),
    ensures
        fits(names, lines) <==> fits_known(names.len(), lines),
    decreases lines.len(),
{
    if lines.len() > 0 {
        let rest = lines.drop_last();
        assert forall|i: int, k: int|
            0 <= i < rest.len() && !all_space(rest[i]) && 0 <= k < tokens(
                rest[i],
            ).len() implies names.contains(#[trigger] tokens(rest[i])[k]) by {
            assert(rest[i] == lines[i]);
        }
        lemma_fits_known(names, rest);
        lemma_names_known(names, rest);
        assert(lines[lines.len() - 1] == lines.last());
        if fits_known(names.len(), lines) {
            assert forall|i: int| 0 <= i < rest.len() implies names.len() + (#[trigger] rest[i]).len()
                + 3 <= u32::MAX by {
                assert(rest[i] == lines[i]);
            }
        }
        if fits(names, lines) {
            assert forall|i: int| 0 <= i < lines.len() implies names.len() + (#[trigger] lines[i]).len()
                + 3 <= u32::MAX by {
                if i < rest.len() {
                    assert(rest[i] == lines[i]);
                }
            }
        }
    }
}

/// Mines the lines of a dataset: reads them once to count the items,
/// gives the items identifiers that rise as their names do, reads them
/// again to build the tree of the frequent items, finds the frequent
/// itemsets by FP-Growth and makes the rules from them.
pub fn mine_fp_growth(
    lines: &Vec<String>,
    min_support: Ratio,
    min_confidence: Ratio,
    min_lift: Option<Ratio>,
) -> (mining: Result<Mining, MiningError>)
    ensures
        mining is Ok <==> can_mine(line_views(lines@)),
        mining is Ok ==> (mining->Ok_0).is_result_of(
            line_views(lines@),
            min_support,
            min_confidence,
            min_lift,
        ),
        mining == Err::<Mining, MiningError>(MiningError::TooManyTransactions) <==> (fits(
            Seq::empty(),
            line_views(lines@),
        ) && filled(line_views(lines@)) > u32::MAX),
{
    let ghost all = line_views(lines@);
    let mut itemizer = Itemizer::new();
    proof {
        assert(itemizer@ =~= Seq::<Seq<char>>::empty());
    }
    let first = match read_transactions(lines, &mut itemizer) {
        Ok(transactions) => transactions,
        Err(error) => {
            return Err(error);
        },
    };
    let ghost first_names = itemizer@;
    proof {
        lemma_reading(first_names, all, first@);
    }
    if first.len() > 0xffff_ffff {
        return Err(MiningError::TooManyTransactions);
    }
    let counted = count_item_frequencies(&first);
    let mut item_count = counted.0;
    let num_transactions = counted.1 as u32;
    let ghost first_count = item_count;
    proof {
        itemizer.lemma_names_distinct();
    }
    itemizer.reorder_sorted(&mut item_count);
    let ghost names = itemizer@;
    proof {
        broadcast use vstd::seq_lib::group_to_multiset_ensures;

        itemizer.lemma_names_distinct();
        vstd::seq_lib::to_multiset_len(names);
        vstd::seq_lib::to_multiset_len(first_names);
        assert forall|i: int, k: int|
            0 <= i < all.len() && !all_space(all[i]) && 0 <= k < tokens(
                all[i],
            ).len() implies names.contains(#[trigger] tokens(all[i])[k]) by {
            let name = tokens(all[i])[k];
            assert(first_names.contains(name));
            assert(first_names.to_multiset().count(name) > 0);
        }
        lemma_fits_known(names, all);
        lemma_names_known(names, all);
    }
    let transactions = match read_transactions(lines, &mut itemizer) {
        Ok(transactions) => transactions,
        Err(error) => {
            return Err(error);
        },
    };
    proof {
        broadcast use vstd::seq_lib::group_to_multiset_ensures;

        lemma_reading(names, all, transactions@);
        assert forall|item: Item| #[trigger]
            item_count.count(item) == item_weight(unit_log(transactions@), item) by {
            lemma_frequency(names, all, transactions@, item);
            if 1 <= item.id <= names.len() {
                let name = names[item.id - 1];
                assert(names.contains(name));
                assert(names.to_multiset().count(name) > 0);
                assert(first_names.contains(name));
                let at = first_names.index_of(name);
                assert(first_names[at] == name);
                let before = Item { id: (at + 1) as u32 };
                lemma_frequency(first_names, all, first@, before);
                assert(first_count.count(before) == item_weight(unit_log(first@), before));
                assert(id_in(first_names, name) == at + 1);
                let given = crate::itemizer::renumbered(first_count@, first_names, names);
                assert(item_count@ == given);
                assert(given[item.id as int] == crate::item_counter::count_in(
                    first_count@,
                    before,
                ));
                assert(item_count.count(item) == first_count.count(before));
            } else {
                let given = crate::itemizer::renumbered(first_count@, first_names, names);
                assert(item_count@ == given);
                if names.len() > 0 && item.id == 0 {
                    assert(given[0] == 0);
                }
                assert(item_count.count(item) == 0);
            }
        }
        assert forall|k: int| 0 <= k < names.len() implies item_count.count(
            Item { id: (k + 1) as u32 },
        ) == line_frequency(all, #[trigger] names[k]) by {
            lemma_frequency(names, all, transactions@, Item { id: (k + 1) as u32 });
        }
    }
    let min_count = min_count(min_support, num_transactions);
    let tree = build_tree(&transactions, &item_count, min_count);
    let no_path: Vec<Item> = Vec::new();
    let itemsets = fp_growth(&tree, min_count, no_path.as_slice(), num_transactions);
    proof {
        tree.lemma_dataset_valid();
        assert(no_path@ =~= Seq::<Item>::empty());
        assert forall|i: int| 0 <= i < itemsets@.len() implies ascending(
            (#[trigger] itemsets@[i]).items@,
        ) by {
            assert(itemset_views(itemsets@)[i] == (itemsets@[i].items@, itemsets@[i].count));
            lemma_mined_is_frequent(
                tree@,
                min_count,
                num_transactions,
                rank_of(item_count),
                i,
            );
        }
    }
    let rules = generate_rules(&itemsets, num_transactions, min_confidence, min_lift);
    Ok(
        Mining {
            itemizer,
            item_count,
            transactions,
            num_transactions,
            min_count,
            tree,
            itemsets,
            rules,
        },
    )
}


/// Two datasets of which each transaction of the one is met by `p` where
/// the transaction of the other at its place is met by `q`, with the same
/// weight, measure the same.
proof fn lemma_measure_alike(
    first: Log,
    second: Log,
    p: spec_fn(Seq<Item>) -> bool,
    q: spec_fn(Seq<Item>) -> bool,
)
    requires
        first.len() == second.len(),
        forall|i: int|
            0 <= i < first.len() ==> (#[trigger] first[i]).1 == second[i].1 && p(first[i].0) == q(
                second[i].0,
            ),
    ensures
        measure(first, p) == measure(second, q),
    decreases first.len(),
{
    if first.len() > 0 {
        let a = first.drop_last();
        let b = second.drop_last();
        assert forall|i: int| 0 <= i < a.len() implies (#[trigger] a[i]).1 == b[i].1 && p(a[i].0)
            == q(b[i].0) by {
            assert(a[i] == first[i] && b[i] == second[i]);
        }
        lemma_measure_alike(a, b, p, q);
        assert(first[first.len() - 1] == first.last());
        assert(second[second.len() - 1] == second.last());
    }
}

/// An itemset of frequent items has in the dataset of the tree the support
/// that it has among the transactions.
pub proof fn lemma_dataset_support(
    counter: ItemCounter,
    min_count: u32,
    transactions: Seq<Vec<Item>>,
    log: Log,
    items: Seq<Item>,
)
    requires
        is_dataset_of(counter, min_count, transactions, log),
        forall|k: int| 0 <= k < items.len() ==> counter.count(#[trigger] items[k]) > min_count,
    ensures
        support_count(log, items) == support_count(unit_log(transactions), items),
{
    broadcast use vstd::seq_lib::group_to_multiset_ensures;

    let whole = unit_log(transactions);
    let keep = kept_by(counter, min_count);
    assert forall|i: int| 0 <= i < log.len() implies (#[trigger] log[i]).1 == whole[i].1 && has_all(
        items,
    )(log[i].0) == has_all(items)(whole[i].0) by {
        let t = transactions[i]@;
        let s = log[i].0;
        let f = t.filter(keep);
        assert(is_canonical(counter, min_count, t, s));
        assert forall|x: Item| s.contains(x) <==> (t.contains(x) && keep(x)) by {
            assert(s.contains(x) <==> s.to_multiset().count(x) > 0);
            assert(f.contains(x) <==> f.to_multiset().count(x) > 0);
            if f.contains(x) {
                let k = choose|k: int| 0 <= k < f.len() && f[k] == x;
                t.lemma_filter_pred(keep, k);
                lemma_filter_from(t, keep, x);
            }
            if t.contains(x) && keep(x) {
                let k = choose|k: int| 0 <= k < t.len() && t[k] == x;
                t.lemma_filter_contains(keep, k);
            }
        }
        if has_all(items)(s) {
            assert forall|k: int| 0 <= k < items.len() implies t.contains(#[trigger] items[k]) by {
                assert(s.contains(items[k]));
            }
        }
        if has_all(items)(t) {
            assert forall|k: int| 0 <= k < items.len() implies s.contains(#[trigger] items[k]) by {
                assert(t.contains(items[k]));
            }
        }
    }
    lemma_measure_alike(log, whole, has_all(items), has_all(items));
}

proof fn lemma_filter_from(t: Seq<Item>, keep: spec_fn(Item) -> bool, x: Item)
    requires
        t.filter(keep).contains(x),
    ensures
        t.contains(x),
    decreases t.len(),
{
    reveal(Seq::filter);
    if t.len() > 0 {
        let rest = t.drop_last();
        let f0 = rest.filter(keep);
        let f = t.filter(keep);
        let k = choose|k: int| 0 <= k < f.len() && f[k] == x;
        if k < f0.len() {
            assert(f0[k] == x);
            lemma_filter_from(rest, keep, x);
            let i = choose|i: int| 0 <= i < rest.len() && rest[i] == x;
            assert(t[i] == x);
        } else {
            assert(t[t.len() - 1] == x);
        }
    }
}

impl Mining {
    /// What is mined are the frequent itemsets of the transactions: each
    /// itemset that is found is ascending and not empty, its count is the
    /// number of the transactions that hold it, and that is above the
    /// threshold.
    pub proof fn lemma_itemsets_are_frequent(
        self,
        lines: Seq<Seq<char>>,
        min_support: Ratio,
        min_confidence: Ratio,
        min_lift: Option<Ratio>,
        k: int,
    )
        requires
            self.is_result_of(lines, min_support, min_confidence, min_lift),
            0 <= k < self.itemsets@.len(),
        ensures
            self.itemsets@[k].items@.len() > 0,
            ascending(self.itemsets@[k].items@),
            self.itemsets@[k].count == support_count(
                unit_log(self.transactions@),
                self.itemsets@[k].items@,
            ),
            self.itemsets@[k].count > self.min_count,
    {
        let log = self.tree@;
        let whole = unit_log(self.transactions@);
        let items = self.itemsets@[k].items@;
        self.tree.lemma_dataset_valid();
        lemma_dataset_order(self.item_count, self.min_count, self.transactions@, log);
        assert(itemset_views(self.itemsets@)[k] == (items, self.itemsets@[k].count));
        lemma_mined_is_frequent(
            log,
            self.min_count,
            self.num_transactions,
            rank_of(self.item_count),
            k,
        );
        assert forall|i: int| 0 <= i < items.len() implies self.item_count.count(
            #[trigger] items[i],
        ) > self.min_count by {
            lemma_kept_items(self.item_count, self.min_count, self.transactions@, log, items, i);
        }
        lemma_dataset_support(self.item_count, self.min_count, self.transactions@, log, items);
    }

    /// No itemset is found twice.
    pub proof fn lemma_itemsets_are_found_once(
        self,
        lines: Seq<Seq<char>>,
        min_support: Ratio,
        min_confidence: Ratio,
        min_lift: Option<Ratio>,
        j: int,
        k: int,
    )
        requires
            self.is_result_of(lines, min_support, min_confidence, min_lift),
            0 <= j < k < self.itemsets@.len(),
        ensures
            self.itemsets@[j].items@ != self.itemsets@[k].items@,
    {
        let log = self.tree@;
        self.tree.lemma_dataset_valid();
        lemma_dataset_order(self.item_count, self.min_count, self.transactions@, log);
        assert(itemset_views(self.itemsets@)[j] == (
            self.itemsets@[j].items@,
            self.itemsets@[j].count,
        ));
        assert(itemset_views(self.itemsets@)[k] == (
            self.itemsets@[k].items@,
            self.itemsets@[k].count,
        ));
        lemma_mined_once(
            log,
            self.min_count,
            self.num_transactions,
            rank_of(self.item_count),
            j,
            k,
        );
    }

    /// The frequent itemsets of the transactions are mined: each ascending
    /// itemset that is not empty and that more transactions hold than the
    /// threshold says is found.
    pub proof fn lemma_frequent_itemsets_are_found(
        self,
        lines: Seq<Seq<char>>,
        min_support: Ratio,
        min_confidence: Ratio,
        min_lift: Option<Ratio>,
        items: Seq<Item>,
    )
        requires
            self.is_result_of(lines, min_support, min_confidence, min_lift),
            items.len() > 0,
            ascending(items),
            support_count(unit_log(self.transactions@), items) > self.min_count,
        ensures
            exists|k: int|
                0 <= k < self.itemsets@.len() && (#[trigger] self.itemsets@[k]).items@ == items,
    {
        let log = self.tree@;
        let whole = unit_log(self.transactions@);
        self.tree.lemma_dataset_valid();
        lemma_dataset_order(self.item_count, self.min_count, self.transactions@, log);
        assert forall|i: int| 0 <= i < items.len() implies self.item_count.count(
            #[trigger] items[i],
        ) > self.min_count by {
            assert forall|x: Item| seq![items[i]].contains(x) implies items.contains(x) by {
                assert(seq![items[i]][0] == items[i]);
            }
            lemma_support_antitone(whole, seq![items[i]], items);
            assert forall|j: int| 0 <= j < whole.len() implies has_all(seq![items[i]])(
                (#[trigger] whole[j]).0,
            ) == has_item(items[i])(whole[j].0) by {
                if has_all(seq![items[i]])(whole[j].0) {
                    assert(whole[j].0.contains(seq![items[i]][0]));
                }
            }
            crate::dataset::lemma_measure_same(
                whole,
                has_all(seq![items[i]]),
                has_item(items[i]),
            );
        }
        lemma_dataset_support(self.item_count, self.min_count, self.transactions@, log, items);
        lemma_frequent_is_mined(
            log,
            self.min_count,
            self.num_transactions,
            rank_of(self.item_count),
            items,
        );
        let k = choose|k: int|
            0 <= k < mined(log, self.min_count, Seq::empty(), self.num_transactions).len() && (
            #[trigger] mined(log, self.min_count, Seq::empty(), self.num_transactions)[k]).0
                == items;
        assert(itemset_views(self.itemsets@)[k] == (
            self.itemsets@[k].items@,
            self.itemsets@[k].count,
        ));
    }
}

impl Mining {
    /// The rules of each frequent itemset are those that trying every split
    /// of it gives: a consequent has a rule exactly when the confidence and
    /// the lift of the rule reach the thresholds.
    pub proof fn lemma_rules_are_all(
        self,
        lines: Seq<Seq<char>>,
        min_support: Ratio,
        min_confidence: Ratio,
        min_lift: Option<Ratio>,
        j: int,
    )
        requires
            self.is_result_of(lines, min_support, min_confidence, min_lift),
            0 <= j < self.rules@.len(),
        ensures
            rule_query(
                splittable(self.itemsets@)[j].items@,
                splittable(self.itemsets@)[j].count,
                support_of(self.itemsets@),
                self.num_transactions,
                min_confidence,
                lift_or_zero(min_lift),
            ).consistent(),
            forall|c: Seq<Item>|
                is_consequent(splittable(self.itemsets@)[j].items@, c) ==> (listed(
                    self.rules@[j]@,
                    c,
                ) <==> (rule_query(
                    splittable(self.itemsets@)[j].items@,
                    splittable(self.itemsets@)[j].count,
                    support_of(self.itemsets@),
                    self.num_transactions,
                    min_confidence,
                    lift_or_zero(min_lift),
                ).confident(c) && rule_query(
                    splittable(self.itemsets@)[j].items@,
                    splittable(self.itemsets@)[j].count,
                    support_of(self.itemsets@),
                    self.num_transactions,
                    min_confidence,
                    lift_or_zero(min_lift),
                ).lifted(c))),
    {
        let picked = splittable(self.itemsets@);
        let whole = unit_log(self.transactions@);
        let table = support_of(self.itemsets@);
        let q = rule_query(
            picked[j].items@,
            picked[j].count,
            table,
            self.num_transactions,
            min_confidence,
            lift_or_zero(min_lift),
        );
        let two_sided = |set: ItemSet| set.items@.len() > 1;
        assert(picked.contains(picked[j]));
        lemma_filter_member(self.itemsets@, two_sided, picked[j]);
        let at = choose|at: int| 0 <= at < self.itemsets@.len() && self.itemsets@[at] == picked[j];
        self.lemma_itemsets_are_frequent(lines, min_support, min_confidence, min_lift, at);
        assert forall|s: Seq<Item>| #[trigger]
            is_consequent(q.itemset, s) implies table.contains_key(s) && table[s]
            == support_count(whole, s) by {
            lemma_support_antitone(whole, s, q.itemset);
            self.lemma_frequent_itemsets_are_found(
                lines,
                min_support,
                min_confidence,
                min_lift,
                s,
            );
            lemma_support_of(self.itemsets@, s);
            let k = choose|k: int|
                0 <= k < self.itemsets@.len() && (#[trigger] self.itemsets@[k]).items@ == s
                    && table[s] == self.itemsets@[k].count;
            self.lemma_itemsets_are_frequent(lines, min_support, min_confidence, min_lift, k);
        }
        assert forall|s: Seq<Item>, t: Seq<Item>|
            #![trigger is_consequent(q.itemset, s), is_consequent(q.itemset, t)]
            is_consequent(q.itemset, s) && is_consequent(q.itemset, t) && subset_of(
                s,
                t,
            ) implies table[s] >= table[t] by {
            lemma_support_antitone(whole, s, t);
        }
        assert(q.consistent());
        lemma_rules_are_exhaustive(q, self.rules@[j]@);
    }
}

/// What a filter lets through was there before.
proof fn lemma_filter_member(all: Seq<ItemSet>, keep: spec_fn(ItemSet) -> bool, set: ItemSet)
    requires
        all.filter(keep).contains(set),
    ensures
        all.contains(set),
    decreases all.len(),
{
    reveal(Seq::filter);
    if all.len() > 0 {
        let rest = all.drop_last();
        let f0 = rest.filter(keep);
        let f = all.filter(keep);
        let k = choose|k: int| 0 <= k < f.len() && f[k] == set;
        if k < f0.len() {
            assert(f0[k] == set);
            lemma_filter_member(rest, keep, set);
            let i = choose|i: int| 0 <= i < rest.len() && rest[i] == set;
            assert(all[i] == set);
        } else {
            assert(all[all.len() - 1] == set);
        }
    }
}

/// The dataset of a tree is ordered by the rank of its counter, and its
/// weight is the number of the transactions.
proof fn lemma_dataset_order(
    counter: ItemCounter,
    min_count: u32,
    transactions: Seq<Vec<Item>>,
    log: Log,
)
    requires
        is_dataset_of(counter, min_count, transactions, log),
        valid_log(log),
    ensures
        ordered_by(log, rank_of(counter)),
        total_weight(log) == log.len(),
    decreases log.len(),
{
    assert forall|j: int| 0 <= j < log.len() implies rises((#[trigger] log[j]).0, rank_of(counter)) by {
        assert(is_canonical(counter, min_count, transactions[j]@, log[j].0));
        lemma_sorted_rises(counter, log[j].0);
    }
    lemma_unit_weight(log);
}

proof fn lemma_unit_weight(log: Log)
    requires
        forall|i: int| 0 <= i < log.len() ==> (#[trigger] log[i]).1 == 1,
    ensures
        total_weight(log) == log.len(),
    decreases log.len(),
{
    if log.len() > 0 {
        let rest = log.drop_last();
        assert forall|i: int| 0 <= i < rest.len() implies (#[trigger] rest[i]).1 == 1 by {
            assert(rest[i] == log[i]);
        }
        lemma_unit_weight(rest);
        assert(log[log.len() - 1] == log.last());
    }
}

/// An item of an itemset that has support in the dataset of the tree is
/// one that was kept.
proof fn lemma_kept_items(
    counter: ItemCounter,
    min_count: u32,
    transactions: Seq<Vec<Item>>,
    log: Log,
    items: Seq<Item>,
    i: int,
)
    requires
        is_dataset_of(counter, min_count, transactions, log),
        0 <= i < items.len(),
        support_count(log, items) > 0,
    ensures
        counter.count(items[i]) > min_count,
{
    broadcast use vstd::seq_lib::group_to_multiset_ensures;

    let j = crate::dataset::lemma_measure_witness(log, has_all(items));
    let s = log[j].0;
    let t = transactions[j]@;
    let keep = kept_by(counter, min_count);
    let f = t.filter(keep);
    assert(is_canonical(counter, min_count, t, s));
    assert(s.contains(items[i]));
    assert(s.to_multiset().count(items[i]) > 0);
    assert(f.contains(items[i]));
    let k = choose|k: int| 0 <= k < f.len() && f[k] == items[i];
    t.lemma_filter_pred(keep, k);
}

} // verus!
