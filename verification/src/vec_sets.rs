use vstd::prelude::*;
use crate::item::Item;

verus! {

/// Strictly ascending by identifier: sorted, and free of duplicates.
pub open spec fn ascending(s: Seq<Item>) -> bool {
    forall|i: int, j: int| 0 <= i < j < s.len() ==> s[i].id < s[j].id
}

/// Every item of `b` occurs in `a`.
pub open spec fn subset_of(b: Seq<Item>, a: Seq<Item>) -> bool {
    forall|x: Item| b.contains(x) ==> a.contains(x)
}

/// `a` and `b` hold the same items at the positions before `k`.
pub open spec fn agree_before(a: Seq<Item>, b: Seq<Item>, k: int) -> bool {
    forall|i: int| 0 <= i < k ==> a[i] == b[i]
}

/// `a` comes before `b` in the order of a dictionary: at the first position
/// where they differ, `a` holds the smaller item.
pub open spec fn lex_less(a: Seq<Item>, b: Seq<Item>) -> bool {
    exists|k: int|
        0 <= k < a.len() && k < b.len() && #[trigger] agree_before(a, b, k) && a[k].id < b[k].id
}

/// The order in which consequents are tried: the shorter first, and among
/// those of one length the order of a dictionary.
pub open spec fn comes_before(a: Seq<Item>, b: Seq<Item>) -> bool {
    a.len() < b.len() || (a.len() == b.len() && lex_less(a, b))
}

/// The items of `a` that `b` lacks, in the order of `a`.
pub open spec fn without(a: Seq<Item>, b: Seq<Item>) -> Seq<Item> {
    a.filter(|x: Item| !b.contains(x))
}

/// Taking items out of an ascending sequence leaves it ascending, and leaves
/// exactly the items that were not taken.
pub proof fn lemma_without(a: Seq<Item>, b: Seq<Item>)
    requires
        ascending(a),
    ensures
        ascending(without(a, b)),
        without(a, b).len() <= a.len(),
        forall|x: Item| without(a, b).contains(x) <==> (a.contains(x) && !b.contains(x)),
    decreases a.len(),
{
    reveal(Seq::filter);
    let keep = |x: Item| !b.contains(x);
    if a.len() > 0 {
        let a0 = a.drop_last();
        let w0 = without(a0, b);
        lemma_without(a0, b);
        let w = without(a, b);
        assert forall|k: int| 0 <= k < w0.len() implies (#[trigger] w0[k]).id < a.last().id by {
            assert(w0.contains(w0[k]));
            assert(a0.contains(w0[k]));
            let i = choose|i: int| 0 <= i < a0.len() && a0[i] == w0[k];
            assert(a[i] == w0[k]);
        }
        assert forall|x: Item| w.contains(x) <==> (a.contains(x) && !b.contains(x)) by {
            if w.contains(x) {
                let k = choose|k: int| 0 <= k < w.len() && w[k] == x;
                if k < w0.len() {
                    assert(w0[k] == x);
                    assert(w0.contains(x));
                    let i = choose|i: int| 0 <= i < a0.len() && a0[i] == x;
                    assert(a[i] == x);
                } else {
                    assert(a[a.len() - 1] == x);
                }
            }
            if a.contains(x) && !b.contains(x) {
                let i = choose|i: int| 0 <= i < a.len() && a[i] == x;
                if i < a.len() - 1 {
                    assert(a0[i] == x);
                    assert(a0.contains(x));
                    assert(w0.contains(x));
                    let k = choose|k: int| 0 <= k < w0.len() && w0[k] == x;
                    assert(w[k] == x);
                } else {
                    assert(w[w.len() - 1] == x);
                }
            }
        }
    }
}

/// A strictly ascending sequence is fixed by the items it holds.
pub proof fn lemma_ascending_unique(a: Seq<Item>, b: Seq<Item>)
    requires
        ascending(a),
        ascending(b),
        forall|x: Item| a.contains(x) <==> b.contains(x),
    ensures
        a == b,
    decreases a.len(),
{
    if a.len() == 0 {
        if b.len() > 0 {
            assert(b.contains(b[0]));
        }
        assert(a =~= b);
    } else {
        let la = a.last();
        assert(a.contains(la));
        let k = choose|k: int| 0 <= k < b.len() && b[k] == la;
        assert(b.len() > 0);
        let lb = b.last();
        assert(b.contains(lb));
        let m = choose|m: int| 0 <= m < a.len() && a[m] == lb;
        assert(la == lb);
        let a0 = a.drop_last();
        let b0 = b.drop_last();
        assert forall|x: Item| a0.contains(x) <==> b0.contains(x) by {
            if a0.contains(x) {
                let i = choose|i: int| 0 <= i < a0.len() && a0[i] == x;
                assert(a[i] == x);
                assert(a.contains(x));
                let j = choose|j: int| 0 <= j < b.len() && b[j] == x;
                assert(x.id < la.id);
                assert(j < b.len() - 1);
                assert(b0[j] == x);
            }
            if b0.contains(x) {
                let i = choose|i: int| 0 <= i < b0.len() && b0[i] == x;
                assert(b[i] == x);
                assert(b.contains(x));
                let j = choose|j: int| 0 <= j < a.len() && a[j] == x;
                assert(x.id < lb.id);
                assert(j < a.len() - 1);
                assert(a0[j] == x);
            }
        }
        lemma_ascending_unique(a0, b0);
        assert(a =~= a0.push(la));
        assert(b =~= b0.push(lb));
    }
}

/// An ascending sequence made of items of another is no longer than that
/// one, and is that one where it is as long.
pub proof fn lemma_subset_len(a: Seq<Item>, b: Seq<Item>)
    requires
        ascending(a),
        ascending(b),
        subset_of(a, b),
    ensures
        a.len() <= b.len(),
        a.len() == b.len() ==> a == b,
    decreases b.len(),
{
    if a.len() == 0 {
        if b.len() == 0 {
            assert(a =~= b);
        }
    } else {
        let la = a.last();
        assert(a.contains(la));
        let j = choose|j: int| 0 <= j < b.len() && b[j] == la;
        let b0 = b.drop_last();
        if j == b.len() - 1 {
            let a0 = a.drop_last();
            assert forall|x: Item| a0.contains(x) implies b0.contains(x) by {
                let i = choose|i: int| 0 <= i < a0.len() && a0[i] == x;
                assert(a[i] == x);
                assert(a.contains(x));
                let t = choose|t: int| 0 <= t < b.len() && b[t] == x;
                assert(x.id < la.id);
                assert(b0[t] == x);
            }
            lemma_subset_len(a0, b0);
            if a.len() == b.len() {
                assert(a =~= a0.push(la));
                assert(b =~= b0.push(la));
            }
        } else {
            assert forall|x: Item| a.contains(x) implies b0.contains(x) by {
                let i = choose|i: int| 0 <= i < a.len() && a[i] == x;
                assert(x.id <= la.id);
                let t = choose|t: int| 0 <= t < b.len() && b[t] == x;
                assert(b[j].id < b[b.len() - 1].id);
                assert(b0[t] == x);
            }
            lemma_subset_len(a, b0);
        }
    }
}

/// The union of two ascending sequences, by a linear merge.
pub fn union(a: &[Item], b: &[Item]) -> (c: Vec<Item>)
    requires
        ascending(a@),
        ascending(b@),
    ensures
        ascending(c@),
        forall|x: Item| c@.contains(x) <==> (a@.contains(x) || b@.contains(x)),
{
    let mut c: Vec<Item> = Vec::new();
    let mut ap: usize = 0;
    let mut bp: usize = 0;
    while ap < a.len() && bp < b.len()
        invariant
            ascending(a@),
            ascending(b@),
            ap <= a.len(),
            bp <= b.len(),
            ascending(c@),
            forall|k: int| 0 <= k < c.len() && ap < a.len() ==> c[k].id < a[ap as int].id,
            forall|k: int| 0 <= k < c.len() && bp < b.len() ==> c[k].id < b[bp as int].id,
            forall|k: int| 0 <= k < c.len() ==> a@.contains(#[trigger] c[k]) || b@.contains(c[k]),
            forall|i: int| 0 <= i < ap ==> c@.contains(#[trigger] a[i]),
            forall|i: int| 0 <= i < bp ==> c@.contains(#[trigger] b[i]),
        decreases a.len() - ap + b.len() - bp,
    {
        let ghost before = c@;
        let x = a[ap];
        let y = b[bp];
        if x.id < y.id {
            c.push(x);
            ap += 1;
        } else if y.id < x.id {
            c.push(y);
            bp += 1;
        } else {
            c.push(x);
            ap += 1;
            bp += 1;
        }
        proof {
            let last = c@.last();
            assert(c@ == before.push(last));
            assert(a@.contains(last) || b@.contains(last));
            assert forall|i: int| 0 <= i < ap implies c@.contains(#[trigger] a[i]) by {
                if before.contains(a[i]) {
                    let k = choose|k: int| 0 <= k < before.len() && before[k] == a[i];
                    assert(c@[k] == a[i]);
                } else {
                    assert(c@[c.len() - 1] == a[i]);
                }
            }
            assert forall|i: int| 0 <= i < bp implies c@.contains(#[trigger] b[i]) by {
                if before.contains(b[i]) {
                    let k = choose|k: int| 0 <= k < before.len() && before[k] == b[i];
                    assert(c@[k] == b[i]);
                } else {
                    assert(c@[c.len() - 1] == b[i]);
                }
            }
        }
    }
    while ap < a.len()
        invariant
            ascending(a@),
            ap <= a.len(),
            bp <= b.len(),
            ap == a.len() || bp == b.len(),
            ascending(c@),
            forall|k: int| 0 <= k < c.len() && ap < a.len() ==> c[k].id < a[ap as int].id,
            forall|k: int| 0 <= k < c.len() && bp < b.len() ==> c[k].id < b[bp as int].id,
            forall|k: int| 0 <= k < c.len() ==> a@.contains(#[trigger] c[k]) || b@.contains(c[k]),
            forall|i: int| 0 <= i < ap ==> c@.contains(#[trigger] a[i]),
            forall|i: int| 0 <= i < bp ==> c@.contains(#[trigger] b[i]),
        decreases a.len() - ap,
    {
        let ghost before = c@;
        c.push(a[ap]);
        ap += 1;
        proof {
            assert(a@.contains(a[ap - 1]));
            assert forall|i: int| 0 <= i < ap implies c@.contains(#[trigger] a[i]) by {
                if before.contains(a[i]) {
                    let k = choose|k: int| 0 <= k < before.len() && before[k] == a[i];
                    assert(c@[k] == a[i]);
                } else {
                    assert(c@[c.len() - 1] == a[i]);
                }
            }
            assert forall|i: int| 0 <= i < bp implies c@.contains(#[trigger] b[i]) by {
                let k = choose|k: int| 0 <= k < before.len() && before[k] == b[i];
                assert(c@[k] == b[i]);
            }
        }
    }
    while bp < b.len()
        invariant
            ascending(b@),
            ap == a.len(),
            bp <= b.len(),
            ascending(c@),
            forall|k: int| 0 <= k < c.len() && bp < b.len() ==> c[k].id < b[bp as int].id,
            forall|k: int| 0 <= k < c.len() ==> a@.contains(#[trigger] c[k]) || b@.contains(c[k]),
            forall|i: int| 0 <= i < ap ==> c@.contains(#[trigger] a[i]),
            forall|i: int| 0 <= i < bp ==> c@.contains(#[trigger] b[i]),
        decreases b.len() - bp,
    {
        let ghost before = c@;
        c.push(b[bp]);
        bp += 1;
        proof {
            assert(b@.contains(b[bp - 1]));
            assert forall|i: int| 0 <= i < bp implies c@.contains(#[trigger] b[i]) by {
                if before.contains(b[i]) {
                    let k = choose|k: int| 0 <= k < before.len() && before[k] == b[i];
                    assert(c@[k] == b[i]);
                } else {
                    assert(c@[c.len() - 1] == b[i]);
                }
            }
            assert forall|i: int| 0 <= i < ap implies c@.contains(#[trigger] a[i]) by {
                let k = choose|k: int| 0 <= k < before.len() && before[k] == a[i];
                assert(c@[k] == a[i]);
            }
        }
    }
    proof {
        assert forall|x: Item| c@.contains(x) <==> (a@.contains(x) || b@.contains(x)) by {
            if c@.contains(x) {
                let k = choose|k: int| 0 <= k < c.len() && c[k] == x;
                assert(a@.contains(c[k]) || b@.contains(c[k]));
            }
            if a@.contains(x) {
                let i = choose|i: int| 0 <= i < a.len() && a[i] == x;
                assert(c@.contains(a[i]));
            }
            if b@.contains(x) {
                let i = choose|i: int| 0 <= i < b.len() && b[i] == x;
                assert(c@.contains(b[i]));
            }
        }
    }
    c
}

/// Splits one item off: what is left of `items` without it, and the item alone.
pub fn split_out_item(items: &[Item], item: Item) -> (parts: (Vec<Item>, Vec<Item>))
    ensures
        parts.0@ == without(items@, seq![item]),
        parts.1@ == seq![item],
{
    let mut rest: Vec<Item> = Vec::new();
    let mut i: usize = 0;
    let ghost keep = |x: Item| !seq![item].contains(x);
    while i < items.len()
        invariant
            i <= items.len(),
            keep == |x: Item| !seq![item].contains(x),
            rest@ == items@.take(i as int).filter(keep),
        decreases items.len() - i,
    {
        proof {
            items@.take(i as int).lemma_filter_push(items[i as int], keep);
            assert(items@.take(i as int).push(items[i as int]) == items@.take(i + 1));
            assert(seq![item][0] == item);
            assert(keep(items[i as int]) <==> items[i as int] != item);
        }
        if items[i].id != item.id {
            rest.push(items[i]);
        }
        i += 1;
    }
    assert(items@.take(items.len() as int) == items@);
    let mut single: Vec<Item> = Vec::new();
    single.push(item);
    assert(single@ == seq![item]);
    (rest, single)
}

/// What is left of `a` once the items of `b` are taken out; `b` holds only
/// items of `a`.
pub fn split_out(a: &[Item], b: &[Item]) -> (c: Vec<Item>)
    requires
        ascending(a@),
        ascending(b@),
        subset_of(b@, a@),
    ensures
        c@ == without(a@, b@),
        ascending(c@),
        forall|x: Item| c@.contains(x) <==> (a@.contains(x) && !b@.contains(x)),
{
    difference(a, b)
}

/// The items of `a` that `b` lacks.
pub fn difference(a: &[Item], b: &[Item]) -> (c: Vec<Item>)
    requires
        ascending(a@),
        ascending(b@),
    ensures
        c@ == without(a@, b@),
        ascending(c@),
        forall|x: Item| c@.contains(x) <==> (a@.contains(x) && !b@.contains(x)),
{
    let mut c: Vec<Item> = Vec::new();
    let mut ap: usize = 0;
    let mut bp: usize = 0;
    while ap < a.len()
        invariant
            ascending(a@),
            ascending(b@),
            ap <= a.len(),
            bp <= b.len(),
            ascending(c@),
            forall|k: int| 0 <= k < c.len() && ap < a.len() ==> c[k].id < a[ap as int].id,
            forall|k: int| 0 <= k < c.len() ==> a@.contains(#[trigger] c[k]) && !b@.contains(c[k]),
            forall|i: int| 0 <= i < ap ==> c@.contains(#[trigger] a[i]) || b@.contains(a[i]),
            forall|j: int| 0 <= j < bp && ap < a.len() ==> (#[trigger] b[j]).id < a[ap as int].id,
        decreases a.len() - ap + b.len() - bp,
    {
        let ghost before = c@;
        let x = a[ap];
        if bp < b.len() && b[bp].id < x.id {
            bp += 1;
        } else if bp < b.len() && b[bp].id == x.id {
            proof {
                assert(b[bp as int] == x);
                assert(b@.contains(x));
            }
            ap += 1;
            bp += 1;
        } else {
            proof {
                assert(a@.contains(x));
                if b@.contains(x) {
                    let j = choose|j: int| 0 <= j < b.len() && b[j] == x;
                    if j < bp {
                        assert(b[j].id < a[ap as int].id);
                    } else if j > bp {
                        assert(b[bp as int].id < b[j].id);
                    }
                }
            }
            c.push(x);
            ap += 1;
        }
        proof {
            assert forall|i: int| 0 <= i < ap implies c@.contains(#[trigger] a[i]) || b@.contains(
                a[i],
            ) by {
                if before.contains(a[i]) {
                    let k = choose|k: int| 0 <= k < before.len() && before[k] == a[i];
                    assert(c@[k] == a[i]);
                } else if !b@.contains(a[i]) {
                    assert(c@[c.len() - 1] == a[i]);
                }
            }
        }
    }
    proof {
        assert forall|x: Item| c@.contains(x) <==> (a@.contains(x) && !b@.contains(x)) by {
            if c@.contains(x) {
                let k = choose|k: int| 0 <= k < c.len() && c[k] == x;
                assert(a@.contains(c[k]) && !b@.contains(c[k]));
            }
            if a@.contains(x) && !b@.contains(x) {
                let i = choose|i: int| 0 <= i < a.len() && a[i] == x;
                assert(c@.contains(a[i]) || b@.contains(a[i]));
            }
        }
        lemma_without(a@, b@);
        lemma_ascending_unique(c@, without(a@, b@));
    }
    c
}

/// The items that `a` and `b` share.
pub fn intersection(a: &[Item], b: &[Item]) -> (c: Vec<Item>)
    requires
        ascending(a@),
        ascending(b@),
    ensures
        ascending(c@),
        forall|x: Item| c@.contains(x) <==> (a@.contains(x) && b@.contains(x)),
{
    let mut c: Vec<Item> = Vec::new();
    let mut ap: usize = 0;
    let mut bp: usize = 0;
    while ap < a.len() && bp < b.len()
        invariant
            ascending(a@),
            ascending(b@),
            ap <= a.len(),
            bp <= b.len(),
            ascending(c@),
            forall|k: int| 0 <= k < c.len() && ap < a.len() ==> c[k].id < a[ap as int].id,
            forall|k: int| 0 <= k < c.len() ==> a@.contains(#[trigger] c[k]) && b@.contains(c[k]),
            forall|i: int| 0 <= i < ap ==> c@.contains(#[trigger] a[i]) || !b@.contains(a[i]),
            forall|j: int| 0 <= j < bp && ap < a.len() ==> (#[trigger] b[j]).id < a[ap as int].id,
        decreases a.len() - ap + b.len() - bp,
    {
        let ghost before = c@;
        let x = a[ap];
        let y = b[bp];
        if x.id < y.id {
            proof {
                if b@.contains(x) {
                    let j = choose|j: int| 0 <= j < b.len() && b[j] == x;
                    if j < bp {
                        assert(b[j].id < a[ap as int].id);
                    } else if j > bp {
                        assert(b[bp as int].id < b[j].id);
                    }
                }
            }
            ap += 1;
        } else if y.id < x.id {
            bp += 1;
        } else {
            proof {
                assert(a@.contains(x));
                assert(b[bp as int] == x);
                assert(b@.contains(x));
            }
            c.push(x);
            ap += 1;
            bp += 1;
        }
        proof {
            assert forall|i: int| 0 <= i < ap implies c@.contains(#[trigger] a[i]) || !b@.contains(
                a[i],
            ) by {
                if before.contains(a[i]) {
                    let k = choose|k: int| 0 <= k < before.len() && before[k] == a[i];
                    assert(c@[k] == a[i]);
                } else if b@.contains(a[i]) {
                    assert(c@[c.len() - 1] == a[i]);
                }
            }
        }
    }
    proof {
        assert forall|x: Item| c@.contains(x) <==> (a@.contains(x) && b@.contains(x)) by {
            if c@.contains(x) {
                let k = choose|k: int| 0 <= k < c.len() && c[k] == x;
                assert(a@.contains(c[k]) && b@.contains(c[k]));
            }
            if a@.contains(x) && b@.contains(x) {
                let i = choose|i: int| 0 <= i < a.len() && a[i] == x;
                if i < ap {
                    assert(c@.contains(a[i]) || !b@.contains(a[i]));
                } else {
                    let j = choose|j: int| 0 <= j < b.len() && b[j] == x;
                    assert(bp == b.len());
                    assert(b[j].id < a[ap as int].id);
                }
            }
        }
    }
    c
}

/// How many items `a` and `b` share.
pub fn intersection_size(a: &[Item], b: &[Item]) -> (n: usize)
    requires
        ascending(a@),
        ascending(b@),
    ensures
        n == a@.filter(|x: Item| b@.contains(x)).len(),
{
    let mut n: usize = 0;
    let mut ap: usize = 0;
    let mut bp: usize = 0;
    let ghost shared = |x: Item| b@.contains(x);
    while ap < a.len()
        invariant
            ascending(a@),
            ascending(b@),
            ap <= a.len(),
            bp <= b.len(),
            shared == |x: Item| b@.contains(x),
            n == a@.take(ap as int).filter(shared).len(),
            n <= ap,
            forall|j: int| 0 <= j < bp && ap < a.len() ==> (#[trigger] b[j]).id < a[ap as int].id,
        decreases a.len() - ap + b.len() - bp,
    {
        let x = a[ap];
        if bp < b.len() && b[bp].id < x.id {
            bp += 1;
        } else {
            proof {
                a@.take(ap as int).lemma_filter_push(x, shared);
                assert(a@.take(ap as int).push(x) == a@.take(ap + 1));
                if bp < b.len() && b[bp as int].id == x.id {
                    assert(b[bp as int] == x);
                    assert(b@.contains(x));
                } else if b@.contains(x) {
                    let j = choose|j: int| 0 <= j < b.len() && b[j] == x;
                    if j < bp {
                        assert(b[j].id < a[ap as int].id);
                    } else if j > bp {
                        assert(b[bp as int].id < b[j].id);
                    }
                }
            }
            if bp < b.len() && b[bp].id == x.id {
                n += 1;
                bp += 1;
            }
            ap += 1;
        }
    }
    assert(a@.take(a.len() as int) == a@);
    n
}

/// How many items `a` and `b` share from the start. They are equally long.
pub fn prefix_match_len(a: &[Item], b: &[Item]) -> (n: usize)
    requires
        a@.len() == b@.len(),
    ensures
        n <= a@.len(),
        agree_before(a@, b@, n as int),
        n < a@.len() ==> a@[n as int] != b@[n as int],
{
    let mut i: usize = 0;
    while i < a.len()
        invariant
            i <= a.len(),
            a@.len() == b@.len(),
            agree_before(a@, b@, i as int),
        decreases a.len() - i,
    {
        if a[i].id != b[i].id {
            return i;
        }
        i += 1;
    }
    a.len()
}



/// Of two lists, only one can come before the other.
pub proof fn lemma_lex_one_way(a: Seq<Item>, b: Seq<Item>)
    requires
        lex_less(a, b),
    ensures
        !lex_less(b, a),
        a != b,
{
    let k1 = choose|k: int|
        0 <= k < a.len() && k < b.len() && #[trigger] agree_before(a, b, k) && a[k].id < b[k].id;
    if lex_less(b, a) {
        let k2 = choose|k: int|
            0 <= k < b.len() && k < a.len() && #[trigger] agree_before(b, a, k) && b[k].id
                < a[k].id;
        if k1 < k2 {
            assert(b[k1] == a[k1]);
        } else if k2 < k1 {
            assert(a[k2] == b[k2]);
        }
    }
}

/// Two lists agree from the one side as from the other.
pub proof fn lemma_lex_agree(a: Seq<Item>, b: Seq<Item>)
    ensures
        forall|k: int| #[trigger] agree_before(a, b, k) ==> agree_before(b, a, k),
{
}

/// Where two lists differ first, the smaller item decides.
pub proof fn lemma_lex_first(a: Seq<Item>, b: Seq<Item>, n: usize)
    requires
        n < a.len(),
        n < b.len(),
        agree_before(a, b, n as int),
        a[n as int].id < b[n as int].id,
    ensures
        lex_less(a, b),
        !lex_less(b, a),
{
    lemma_lex_one_way(a, b);
}

/// Lists that agree in every place come neither before the other.
pub proof fn lemma_lex_equal(a: Seq<Item>, b: Seq<Item>)
    requires
        a.len() == b.len(),
        agree_before(a, b, a.len() as int),
    ensures
        !lex_less(a, b),
        !lex_less(b, a),
{
    if lex_less(a, b) {
        let k = choose|k: int|
            0 <= k < a.len() && k < b.len() && #[trigger] agree_before(a, b, k) && a[k].id
                < b[k].id;
        assert(a[k] == b[k]);
    }
    if lex_less(b, a) {
        let k = choose|k: int|
            0 <= k < b.len() && k < a.len() && #[trigger] agree_before(b, a, k) && b[k].id
                < a[k].id;
        assert(a[k] == b[k]);
    }
}

} // verus!
