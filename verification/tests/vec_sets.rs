use assoc_rules::item::Item;
use assoc_rules::vec_sets::{
    difference, intersection, intersection_size, split_out, split_out_item, union,
};

fn to_item_vec(nums: &[u32]) -> Vec<Item> {
    nums.iter().map(|i| Item::with_id(*i)).collect()
}

#[test]
fn test_union() {
    let test_cases: Vec<(Vec<Item>, Vec<Item>, Vec<Item>)> = [
        (vec![1, 2, 3], vec![4, 5, 6], vec![1, 2, 3, 4, 5, 6]),
        (vec![1, 2, 3], vec![3, 4, 5, 6], vec![1, 2, 3, 4, 5, 6]),
        (vec![], vec![1], vec![1]),
        (vec![1], vec![], vec![1]),
    ]
    .iter()
    .map(|&(ref a, ref b, ref u)| (to_item_vec(a), to_item_vec(b), to_item_vec(u)))
    .collect();

    for &(ref a, ref b, ref c) in &test_cases {
        assert_eq!(&union(&a, &b), c);
    }
}

#[test]
fn test_split_out_item() {
    let cases: Vec<(Vec<Item>, Item, (Vec<Item>, Vec<Item>))> = [
        (vec![1], 1, (vec![], vec![1])),
        (vec![1, 2, 3], 1, (vec![2, 3], vec![1])),
        (vec![1, 2, 3], 2, (vec![1, 3], vec![2])),
        (vec![1, 2, 3], 3, (vec![1, 2], vec![3])),
    ]
    .iter()
    .map(|&(ref a, v, (ref b, ref c))| {
        (
            to_item_vec(a),
            Item::with_id(v),
            (to_item_vec(b), to_item_vec(c)),
        )
    })
    .collect();

    for (a, v, (b, c)) in cases.into_iter() {
        let split = split_out_item(&a, v);
        assert!(split == (b, c));
    }
}

#[test]
fn set_algebra_on_ascending_items() {
    let a = to_item_vec(&[1, 3, 5, 7, 9]);
    let b = to_item_vec(&[2, 3, 4, 7, 10, 11]);
    let none = to_item_vec(&[]);
    assert_eq!(union(&a, &b), to_item_vec(&[1, 2, 3, 4, 5, 7, 9, 10, 11]));
    assert_eq!(intersection(&a, &b), to_item_vec(&[3, 7]));
    assert_eq!(intersection_size(&a, &b), 2);
    assert_eq!(difference(&a, &b), to_item_vec(&[1, 5, 9]));
    assert_eq!(difference(&b, &a), to_item_vec(&[2, 4, 10, 11]));
    assert_eq!(intersection(&a, &none), none);
    assert_eq!(intersection_size(&none, &b), 0);
    assert_eq!(difference(&a, &none), a);
    assert_eq!(difference(&none, &a), none);
    assert_eq!(union(&none, &none), none);
    assert_eq!(split_out(&a, &to_item_vec(&[3, 9])), to_item_vec(&[1, 5, 7]));
    assert_eq!(split_out(&a, &a), none);
    assert_eq!(split_out(&a, &none), a);
}

#[test]
fn splitting_out_an_absent_item() {
    let split = split_out_item(&to_item_vec(&[1, 2, 3]), Item::with_id(9));
    assert_eq!(split, (to_item_vec(&[1, 2, 3]), to_item_vec(&[9])));
}
