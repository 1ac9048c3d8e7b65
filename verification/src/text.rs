use vstd::prelude::*;
use vstd::string::StrSliceExecFns;

verus! {

/// Whether `c` is white space, as Unicode has it.
pub open spec fn is_space(c: char) -> bool {
    let code = c as int;
    ||| 0x09 <= code <= 0x0d
    ||| code == 0x20
    ||| code == 0x85
    ||| code == 0xa0
    ||| code == 0x1680
    ||| 0x2000 <= code <= 0x200a
    ||| code == 0x2028
    ||| code == 0x2029
    ||| code == 0x202f
    ||| code == 0x205f
    ||| code == 0x3000
}

/// Every character of `s` is white space.
pub open spec fn all_space(s: Seq<char>) -> bool {
    forall|i: int| 0 <= i < s.len() ==> is_space(#[trigger] s[i])
}

/// `s` without its white space is what stands from `a` up to `b`.
pub open spec fn is_trim(s: Seq<char>, a: int, b: int) -> bool {
    &&& 0 <= a < b <= s.len()
    &&& !is_space(s[a])
    &&& !is_space(s[b - 1])
    &&& forall|i: int| 0 <= i < a ==> is_space(#[trigger] s[i])
    &&& forall|i: int| b <= i < s.len() ==> is_space(#[trigger] s[i])
}

/// `s` without the white space at its start and at its end.
pub open spec fn trimmed(s: Seq<char>) -> Seq<char> {
    if all_space(s) {
        Seq::empty()
    } else {
        let (a, b) = choose|a: int, b: int| is_trim(s, a, b);
        s.subrange(a, b)
    }
}

/// The fields of a line, which commas part. A line without a comma is one
/// field; a comma at the end is followed by an empty field.
pub open spec fn fields(line: Seq<char>) -> Seq<Seq<char>>
    decreases line.len(),
{
    if line.len() == 0 {
        seq![Seq::empty()]
    } else if line.last() == ',' {
        fields(line.drop_last()).push(Seq::empty())
    } else {
        let before = fields(line.drop_last());
        before.drop_last().push(before.last().push(line.last()))
    }
}

/// Trimming, as what is done to each field.
pub open spec fn trim_each() -> spec_fn(Seq<char>) -> Seq<char> {
    |field: Seq<char>| trimmed(field)
}

/// The fields of a line, each without the white space around it.
pub open spec fn tokens(line: Seq<char>) -> Seq<Seq<char>> {
    fields(line).map_values(trim_each())
}

/// The strings as sequences of characters.
pub open spec fn str_views(strings: Seq<&str>) -> Seq<Seq<char>> {
    Seq::new(strings.len(), |i: int| strings[i]@)
}

pub proof fn lemma_fields(line: Seq<char>)
    ensures
        1 <= fields(line).len() <= line.len() + 1,
    decreases line.len(),
{
    if line.len() > 0 {
        lemma_fields(line.drop_last());
    }
}

/// Where `a` and `b` bound the part of `s` that is not white space at
/// either end, that part is `s` trimmed.
pub proof fn lemma_trim(s: Seq<char>, a: int, b: int)
    requires
        is_trim(s, a, b),
    ensures
        trimmed(s) == s.subrange(a, b),
{
    let (x, y) = choose|x: int, y: int| is_trim(s, x, y);
    assert(is_trim(s, x, y));
    assert(!all_space(s));
    if x < a {
        assert(is_space(s[x]));
    }
    if a < x {
        assert(is_space(s[a]));
    }
    if y < b {
        assert(is_space(s[b - 1]));
    }
    if b < y {
        assert(is_space(s[y - 1]));
    }
}

/// Whether `c` is white space.
pub fn is_whitespace(c: char) -> (space: bool)
    ensures
        space == is_space(c),
{
    let code = c as u32;
    (0x09 <= code && code <= 0x0d) || code == 0x20 || code == 0x85 || code == 0xa0 || code
        == 0x1680 || (0x2000 <= code && code <= 0x200a) || code == 0x2028 || code == 0x2029 || code
        == 0x202f || code == 0x205f || code == 0x3000
}

/// The fields of `line`, each without the white space around it, and
/// whether the line is white space altogether.
pub fn split_line<'a>(line: &'a str) -> (parts: (Vec<&'a str>, bool))
    ensures
        str_views(parts.0@) == tokens(line@),
        parts.1 == all_space(line@),
{
    let total = line.unicode_len();
    let mut found: Vec<&'a str> = Vec::new();
    let mut blank = true;
    let mut start: usize = 0;
    let mut seen = false;
    let mut a: usize = 0;
    let mut b: usize = 0;
    let mut i: usize = 0;
    let ghost mut done: Seq<Seq<char>> = Seq::empty();
    proof {
        assert(line@.take(0) =~= Seq::<char>::empty());
        assert(fields(line@.take(0)) =~= done.push(line@.subrange(0, 0)));
    }
    for c in it: line.chars()
        invariant
            it.seq() == line@,
            i == it.index(),
            total == line@.len(),
            start <= i,
            fields(line@.take(i as int)) == done.push(line@.subrange(start as int, i as int)),
            str_views(found@) == done.map_values(trim_each()),
            blank == all_space(line@.take(i as int)),
            !seen ==> all_space(line@.subrange(start as int, i as int)),
            seen ==> start <= a < b <= i && is_trim(
                line@.subrange(start as int, i as int),
                a - start,
                b - start,
            ),
    {
        let ghost field = line@.subrange(start as int, i as int);
        proof {
            assert(line@.take(i + 1).drop_last() =~= line@.take(i as int));
            assert(line@.take(i + 1).last() == c);
            assert(done.push(field).drop_last() =~= done);
        }
        if !is_whitespace(c) {
            blank = false;
        }
        if c == ',' {
            let token = if seen {
                proof {
                    lemma_trim(field, a - start, b - start);
                    assert(field.subrange(a - start, b - start) =~= line@.subrange(
                        a as int,
                        b as int,
                    ));
                }
                line.substring_char(a, b)
            } else {
                proof {
                    assert(line@.subrange(start as int, start as int) =~= Seq::<char>::empty());
                }
                line.substring_char(start, start)
            };
            let ghost found_before = found@;
            proof {
                assert(token@ == trimmed(field));
                assert(str_views(found_before).len() == found_before.len());
                assert(done.map_values(trim_each()).len() == done.len());
            }
            found.push(token);
            proof {
                assert(found@.len() == done.len() + 1);
                assert forall|j: int| 0 <= j < found@.len() implies str_views(found@)[j]
                    == done.push(field).map_values(trim_each())[j] by {
                    if j < found_before.len() {
                        assert(str_views(found_before)[j] == done.map_values(trim_each())[j]);
                    }
                }
                assert(str_views(found@) =~= done.push(field).map_values(trim_each()));
                done = done.push(field);
                assert(line@.subrange(i + 1, i + 1) =~= Seq::<char>::empty());
            }
            start = i + 1;
            seen = false;
        } else {
            proof {
                assert(field.push(c) =~= line@.subrange(start as int, i + 1));
            }
            if !is_whitespace(c) {
                if !seen {
                    a = i;
                    seen = true;
                }
                b = i + 1;
            }
            proof {
                let grown = line@.subrange(start as int, i + 1);
                if seen {
                    assert(grown[a - start] == line@[a as int]);
                    assert(grown[b - start - 1] == line@[b - 1]);
                    assert forall|k: int| 0 <= k < a - start implies is_space(
                        #[trigger] grown[k],
                    ) by {
                        assert(grown[k] == field[k]);
                    }
                    assert forall|k: int| b - start <= k < grown.len() implies is_space(
                        #[trigger] grown[k],
                    ) by {
                        if k < field.len() {
                            assert(grown[k] == field[k]);
                        }
                    }
                    if b == i + 1 && a < i {
                        assert(field[a - start] == line@[a as int]);
                    }
                } else {
                    assert forall|k: int| 0 <= k < grown.len() implies is_space(
                        #[trigger] grown[k],
                    ) by {
                        if k < field.len() {
                            assert(grown[k] == field[k]);
                        }
                    }
                }
            }
        }
        proof {
            let upto = line@.take(i as int);
            let next = line@.take(i + 1);
            assert forall|k: int| 0 <= k < upto.len() implies upto[k] == next[k] by {}
            if all_space(next) {
                assert forall|k: int| 0 <= k < upto.len() implies is_space(#[trigger] upto[k]) by {
                    assert(is_space(next[k]));
                }
            }
            if all_space(upto) && is_space(c) {
                assert forall|k: int| 0 <= k < next.len() implies is_space(#[trigger] next[k]) by {
                    if k < upto.len() {
                        assert(is_space(upto[k]));
                    }
                }
            }
            if !is_space(c) {
                assert(!is_space(next[i as int]));
            }
        }
        i = i + 1;
    }
    let ghost field = line@.subrange(start as int, i as int);
    let token = if seen {
        proof {
            lemma_trim(field, a - start, b - start);
            assert(field.subrange(a - start, b - start) =~= line@.subrange(a as int, b as int));
        }
        line.substring_char(a, b)
    } else {
        proof {
            assert(line@.subrange(start as int, start as int) =~= Seq::<char>::empty());
        }
        line.substring_char(start, start)
    };
    let ghost found_before = found@;
    found.push(token);
    proof {
        assert(line@.take(line@.len() as int) =~= line@);
        assert forall|j: int| 0 <= j < found@.len() implies str_views(found@)[j] == done.push(
            field,
        ).map_values(trim_each())[j] by {
            if j < found_before.len() {
                assert(str_views(found_before)[j] == done.map_values(trim_each())[j]);
            }
        }
        assert(str_views(found@) =~= done.push(field).map_values(trim_each()));
    }
    (found, blank)
}

/// `a` and `b` hold the same characters at the places before `k`.
pub open spec fn same_before(a: Seq<char>, b: Seq<char>, k: int) -> bool {
    forall|i: int| 0 <= i < k ==> a[i] == b[i]
}

/// `a` comes before `b` in the order of strings: at the first place where
/// they differ `a` holds the character of the smaller code, or `a` ends
/// there and `b` goes on.
pub open spec fn str_less(a: Seq<char>, b: Seq<char>) -> bool {
    exists|k: int|
        0 <= k <= a.len() && k <= b.len() && #[trigger] same_before(a, b, k) && (if k == a.len() {
            k < b.len()
        } else {
            k < b.len() && (a[k] as int) < (b[k] as int)
        })
}

/// The strings rise, equal neighbours allowed.
pub open spec fn sorted_names(names: Seq<Seq<char>>) -> bool {
    forall|i: int, j: int| 0 <= i < j < names.len() ==> !str_less(names[j], names[i])
}

/// The strings rise strictly.
pub open spec fn rising_names(names: Seq<Seq<char>>) -> bool {
    forall|i: int, j: int| 0 <= i < j < names.len() ==> str_less(names[i], names[j])
}

proof fn lemma_compare_from(a: Seq<char>, b: Seq<char>, k: int)
    requires
        0 <= k <= a.len(),
        k <= b.len(),
        same_before(a, b, k),
    ensures
        a == b || str_less(a, b) || str_less(b, a),
    decreases a.len() - k,
{
    if k == a.len() {
        if k == b.len() {
            assert(a =~= b);
        }
    } else if k == b.len() {
        assert(same_before(b, a, k));
    } else if a[k] != b[k] {
        assert(same_before(b, a, k));
        assert((a[k] as int) != (b[k] as int));
    } else {
        lemma_compare_from(a, b, k + 1);
    }
}

/// Of two strings that differ, one comes before the other.
pub proof fn lemma_str_order_total(a: Seq<char>, b: Seq<char>)
    ensures
        a == b || str_less(a, b) || str_less(b, a),
{
    lemma_compare_from(a, b, 0);
}

/// Strings that rise and of which no two are equal rise strictly.
pub proof fn lemma_sorted_distinct(names: Seq<Seq<char>>)
    requires
        sorted_names(names),
        names.no_duplicates(),
    ensures
        rising_names(names),
{
    assert forall|i: int, j: int| 0 <= i < j < names.len() implies str_less(
        names[i],
        names[j],
    ) by {
        lemma_str_order_total(names[i], names[j]);
    }
}

} // verus!
