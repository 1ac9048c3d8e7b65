use assoc_rules::item::Item;
use assoc_rules::itemizer::Itemizer;
use assoc_rules::text::{is_whitespace, split_line};
use assoc_rules::transaction_reader::{dedupe_sorted, parse_transaction};

fn ids(nums: &[u32]) -> Vec<Item> {
    nums.iter().map(|&i| Item::with_id(i)).collect()
}

#[test]
fn test_dedupe_sorted() {
    let cases = [
        (vec![], vec![]),
        (vec![1], vec![1]),
        (vec![1, 2], vec![1, 2]),
        (vec![1, 1], vec![1]),
        (vec![1, 1, 1], vec![1]),
        (vec![1, 1, 2, 2], vec![1, 2]),
        (vec![1, 2, 3], vec![1, 2, 3]),
        (vec![1, 2, 2, 3], vec![1, 2, 3]),
    ];
    for (mut v, e) in cases.iter().map(|(a, b)| (ids(a), ids(b))) {
        dedupe_sorted(&mut v);
        assert!(v == e);
    }
}

#[test]
fn dedupe_keeps_separate_runs() {
    let mut v = ids(&[3, 3, 1, 1, 3]);
    dedupe_sorted(&mut v);
    assert_eq!(v, ids(&[3, 1, 3]));
}

#[test]
fn line_is_normalized() {
    let mut itemizer = Itemizer::new();
    let transaction = parse_transaction("x, y , x, y, z", &mut itemizer).unwrap();
    assert_eq!(itemizer.len(), 3);
    let names: Vec<&str> = transaction.iter().map(|&item| itemizer.str_of(item)).collect();
    assert_eq!(names, vec!["x", "y", "z"]);
    assert_eq!(transaction, ids(&[1, 2, 3]));
}

#[test]
fn transaction_is_sorted_by_identifier() {
    let mut itemizer = Itemizer::new();
    assert_eq!(parse_transaction("c,a", &mut itemizer), Some(ids(&[1, 2])));
    assert_eq!(parse_transaction("b,a,c\n", &mut itemizer), Some(ids(&[1, 2, 3])));
    assert_eq!(itemizer.str_of(Item::with_id(1)), "c");
    assert_eq!(itemizer.str_of(Item::with_id(2)), "a");
    assert_eq!(itemizer.str_of(Item::with_id(3)), "b");
}

#[test]
fn blank_lines_are_no_transactions() {
    let mut itemizer = Itemizer::new();
    assert_eq!(parse_transaction("", &mut itemizer), None);
    assert_eq!(parse_transaction("   \t\r\n", &mut itemizer), None);
    assert_eq!(parse_transaction("\u{a0}\u{2003}", &mut itemizer), None);
    assert_eq!(itemizer.len(), 0);
}

#[test]
fn empty_fields_name_the_empty_string() {
    let mut itemizer = Itemizer::new();
    assert_eq!(parse_transaction("a,,b,", &mut itemizer), Some(ids(&[1, 2, 3])));
    assert_eq!(itemizer.str_of(Item::with_id(2)), "");
    assert_eq!(parse_transaction(",", &mut itemizer), Some(ids(&[2])));
}

#[test]
fn fields_are_split_and_trimmed() {
    assert_eq!(split_line("x, y , x, y, z"), (vec!["x", "y", "x", "y", "z"], false));
    assert_eq!(split_line(""), (vec![""], true));
    assert_eq!(split_line(" \t "), (vec![""], true));
    assert_eq!(split_line(" a b ,\tc\n"), (vec!["a b", "c"], false));
    assert_eq!(split_line(","), (vec!["", ""], false));
    assert_eq!(split_line("é ,\u{3000}ü\u{2028}"), (vec!["é", "ü"], false));
}

#[test]
fn white_space_is_that_of_std() {
    for code in 0u32..0x11000 {
        if let Some(c) = char::from_u32(code) {
            assert_eq!(is_whitespace(c), c.is_whitespace());
        }
    }
    for line in ["  a  ", "\u{85}b\u{205f}", "\u{200b}c", "\u{1680}d\u{202f}\u{2029}"] {
        assert_eq!(split_line(line).0, vec![line.trim()]);
    }
}
