use vstd::prelude::*;
use crate::item::Item;
use crate::itemizer::{id_in, Itemizer};
use crate::itemset::{non_descending, sorted_by_id};
use crate::text::{all_space, lemma_fields, split_line, str_views, tokens};
use crate::vec_sets::ascending;

verus! {

/// `s` with each run of equal neighbours brought down to one item.
pub open spec fn without_repeats(s: Seq<Item>) -> Seq<Item>
    decreases s.len(),
{
    if s.len() <= 1 {
        s
    } else if s[s.len() - 1] == s[s.len() - 2] {
        without_repeats(s.drop_last())
    } else {
        without_repeats(s.drop_last()).push(s.last())
    }
}

proof fn lemma_repeats_last(s: Seq<Item>)
    requires
        s.len() > 0,
    ensures
        0 < without_repeats(s).len() <= s.len(),
        without_repeats(s).last() == s.last(),
    decreases s.len(),
{
    if s.len() > 1 {
        lemma_repeats_last(s.drop_last());
    }
}

/// Of a rising list, what is left without repeats rises strictly and holds
/// the same items.
pub proof fn lemma_without_repeats(s: Seq<Item>)
    requires
        non_descending(s),
    ensures
        ascending(without_repeats(s)),
        forall|x: Item| without_repeats(s).contains(x) <==> s.contains(x),
    decreases s.len(),
{
    let r = without_repeats(s);
    if s.len() <= 1 {
    } else {
        let s0 = s.drop_last();
        let r0 = without_repeats(s0);
        lemma_without_repeats(s0);
        lemma_repeats_last(s0);
        let last = s.last();
        assert(s0.last() == s[s.len() - 2]);
        assert forall|x: Item| s.contains(x) <==> (s0.contains(x) || x == last) by {
            if s.contains(x) {
                let i = choose|i: int| 0 <= i < s.len() && s[i] == x;
                if i < s.len() - 1 {
                    assert(s0[i] == x);
                }
            }
            if s0.contains(x) {
                let i = choose|i: int| 0 <= i < s0.len() && s0[i] == x;
                assert(s[i] == x);
            }
            if x == last {
                assert(s[s.len() - 1] == x);
            }
        }
        if s[s.len() - 1] == s[s.len() - 2] {
            assert(r0.contains(r0.last())) by {
                assert(r0[r0.len() - 1] == r0.last());
            }
        } else {
            assert(r == r0.push(last));
            assert forall|i: int, j: int| 0 <= i < j < r.len() implies r[i].id < r[j].id by {
                if j == r.len() - 1 {
                    assert(r0.contains(r0[i]));
                    assert(s0.contains(r0[i]));
                    let k = choose|k: int| 0 <= k < s0.len() && s0[k] == r0[i];
                    assert(s[k].id <= s[s.len() - 2].id);
                    assert(s[s.len() - 2].id <= s[s.len() - 1].id);
                    if i == r0.len() - 1 {
                        assert(r0[i] == s0.last());
                    } else {
                        assert(r0[i].id < r0[r0.len() - 1].id);
                    }
                } else {
                    assert(r0[i].id < r0[j].id);
                }
            }
            assert forall|x: Item| r.contains(x) <==> (r0.contains(x) || x == last) by {
                if r.contains(x) {
                    let i = choose|i: int| 0 <= i < r.len() && r[i] == x;
                    if i < r0.len() {
                        assert(r0[i] == x);
                    }
                }
                if r0.contains(x) {
                    let i = choose|i: int| 0 <= i < r0.len() && r0[i] == x;
                    assert(r[i] == x);
                }
                if x == last {
                    assert(r[r.len() - 1] == x);
                }
            }
        }
    }
}

/// Brings each run of equal neighbours of `v` down to one item, in place.
pub fn dedupe_sorted(v: &mut Vec<Item>)
    ensures
        final(v)@ == without_repeats(old(v)@),
{
    let ghost given = v@;
    let n = v.len();
    let mut k: usize = 0;
    let mut i: usize = 0;
    proof {
        assert(given.take(0) =~= Seq::<Item>::empty());
        assert(v@.take(0) =~= Seq::<Item>::empty());
    }
    while i < n
        invariant
            n == given.len(),
            v@.len() == n,
            k <= i <= n,
            v@.take(k as int) == without_repeats(given.take(i as int)),
            forall|j: int| i <= j < n ==> v@[j] == given[j],
        decreases n - i,
    {
        let x = v[i];
        let ghost upto = given.take(i as int);
        let ghost next = given.take(i + 1);
        let ghost kept = v@.take(k as int);
        proof {
            assert(next.drop_last() =~= upto);
            assert(next.last() == x);
            if i > 0 {
                lemma_repeats_last(upto);
                assert(kept[k - 1] == v@[k - 1]);
                assert(upto.last() == given[i - 1]);
                assert(next[next.len() - 2] == given[i - 1]);
            }
        }
        if k == 0 || v[k - 1].id != x.id {
            v.set(k, x);
            proof {
                assert(v@.take(k + 1) =~= kept.push(x));
            }
            k += 1;
        } else {
            proof {
                assert(v@.take(k as int) =~= kept);
            }
        }
        i += 1;
    }
    proof {
        assert(given.take(n as int) =~= given);
    }
    v.truncate(k);
    proof {
        assert(v@ =~= without_repeats(given));
    }
}

/// The names that are known once the strings of `seen` have been met, in
/// their order: a string not known yet is added at the end.
pub open spec fn learned(names: Seq<Seq<char>>, seen: Seq<Seq<char>>) -> Seq<Seq<char>>
    decreases seen.len(),
{
    if seen.len() == 0 {
        names
    } else {
        let before = learned(names, seen.drop_last());
        if before.contains(seen.last()) {
            before
        } else {
            before.push(seen.last())
        }
    }
}

/// A name keeps its place when names are added behind it.
pub proof fn lemma_place_kept(names: Seq<Seq<char>>, more: Seq<Seq<char>>, name: Seq<char>)
    requires
        more.no_duplicates(),
        names.len() <= more.len(),
        forall|i: int| 0 <= i < names.len() ==> names[i] == more[i],
        names.contains(name),
    ensures
        more.contains(name),
        id_in(more, name) == id_in(names, name),
{
    let i = names.index_of(name);
    assert(names[i] == name);
    assert(more[i] == name);
    let j = more.index_of(name);
    assert(more[j] == name);
}

/// Reads one line as a transaction: the fields between commas, each
/// without the white space around it, stand for items; the transaction
/// holds each item once, by rising identifier. A line of white space alone
/// is no transaction.
pub fn parse_transaction(line: &str, itemizer: &mut Itemizer) -> (transaction: Option<Vec<Item>>)
    requires
        old(itemizer).wf(),
        old(itemizer)@.len() + line@.len() + 3 <= u32::MAX,
    ensures
        final(itemizer).wf(),
        all_space(line@) ==> transaction is None && final(itemizer)@ == old(itemizer)@,
        !all_space(line@) ==> transaction is Some && final(itemizer)@ == learned(
            old(itemizer)@,
            tokens(line@),
        ),
        transaction is Some ==> ascending(transaction->0@),
        transaction is Some ==> forall|x: Item|
            transaction->0@.contains(x) <==> exists|k: int|
                0 <= k < tokens(line@).len() && x.id == id_in(
                    final(itemizer)@,
                    #[trigger] tokens(line@)[k],
                ),
{
    let parts = split_line(line);
    let found = parts.0;
    if parts.1 {
        return None;
    }
    let ghost names = itemizer@;
    let ghost toks = tokens(line@);
    proof {
        lemma_fields(line@);
        assert(toks.take(0) =~= Seq::<Seq<char>>::empty());
    }
    let mut ids: Vec<Item> = Vec::new();
    let mut k: usize = 0;
    while k < found.len()
        invariant
            toks == tokens(line@),
            str_views(found@) == toks,
            toks.len() <= line@.len() + 1,
            names.len() + line@.len() + 3 <= u32::MAX,
            k <= toks.len(),
            itemizer.wf(),
            itemizer@ == learned(names, toks.take(k as int)),
            itemizer@.len() <= names.len() + k,
            ids@.len() == k,
            forall|j: int|
                0 <= j < k ==> itemizer@.contains(#[trigger] toks[j]) && ids@[j].id == id_in(
                    itemizer@,
                    toks[j],
                ),
        decreases toks.len() - k,
    {
        let ghost known = itemizer@;
        proof {
            assert(str_views(found@)[k as int] == found@[k as int]@);
        }
        let id = itemizer.id_of(found[k]);
        ids.push(id);
        proof {
            let more = itemizer@;
            itemizer.lemma_names_distinct();
            assert(toks.take(k + 1).drop_last() =~= toks.take(k as int));
            assert(toks.take(k + 1).last() == toks[k as int]);
            assert forall|j: int| 0 <= j < k + 1 implies more.contains(#[trigger] toks[j])
                && ids@[j].id == id_in(more, toks[j]) by {
                if j < k {
                    lemma_place_kept(known, more, toks[j]);
                } else {
                    assert(more[id.id - 1] == toks[j]);
                }
            }
        }
        k += 1;
    }
    proof {
        assert(toks.take(toks.len() as int) =~= toks);
    }
    let ghost collected = ids@;
    let mut transaction = sorted_by_id(ids);
    let ghost sorted = transaction@;
    dedupe_sorted(&mut transaction);
    proof {
        broadcast use vstd::seq_lib::group_to_multiset_ensures;

        lemma_without_repeats(sorted);
        assert forall|x: Item|
            transaction@.contains(x) <==> exists|k: int|
                0 <= k < toks.len() && x.id == id_in(itemizer@, #[trigger] toks[k]) by {
            assert(sorted.contains(x) <==> sorted.to_multiset().count(x) > 0);
            assert(collected.contains(x) <==> collected.to_multiset().count(x) > 0);
            if collected.contains(x) {
                let j = choose|j: int| 0 <= j < collected.len() && collected[j] == x;
                assert(x.id == id_in(itemizer@, toks[j]));
            }
            if exists|k: int| 0 <= k < toks.len() && x.id == id_in(itemizer@, #[trigger] toks[k]) {
                let j = choose|k: int|
                    0 <= k < toks.len() && x.id == id_in(itemizer@, #[trigger] toks[k]);
                assert(collected[j] == x);
            }
        }
    }
    Some(transaction)
}

} // verus!
