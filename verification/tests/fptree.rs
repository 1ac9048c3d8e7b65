use assoc_rules::fp_growth::{fp_growth, grow_branch};
use assoc_rules::fptree::FPTree;
use assoc_rules::item::Item;
use assoc_rules::item_counter::ItemCounter;
use assoc_rules::itemset::ItemSet;
use assoc_rules::mining::{build_tree, count_item_frequencies};
use std::collections::BTreeMap;

fn ids(nums: &[u32]) -> Vec<Item> {
    nums.iter().map(|&i| Item::with_id(i)).collect()
}

fn as_pairs(itemsets: &Vec<ItemSet>) -> Vec<(Vec<u32>, u32)> {
    itemsets
        .iter()
        .map(|set| (set.items.iter().map(|item| item.id).collect(), set.count))
        .collect()
}

fn frequencies(tree: &FPTree, upto: u32) -> Vec<u32> {
    (0..=upto).map(|id| tree.item_count().get(&Item::with_id(id))).collect()
}

#[test]
fn insert_shares_prefixes() {
    let mut tree = FPTree::new();
    assert_eq!(tree.child_of(0, Item::with_id(1)), None);
    tree.insert(&ids(&[1, 2, 3]), 1);
    tree.insert(&ids(&[1, 2, 4]), 2);
    tree.insert(&ids(&[2, 4]), 5);
    tree.insert(&ids(&[]), 7);
    assert_eq!(tree.child_of(0, Item::with_id(1)), Some(1));
    assert_eq!(tree.child_of(1, Item::with_id(2)), Some(2));
    assert_eq!(tree.child_of(2, Item::with_id(3)), Some(3));
    assert_eq!(tree.child_of(2, Item::with_id(4)), Some(4));
    assert_eq!(tree.child_of(0, Item::with_id(2)), Some(5));
    assert_eq!(tree.child_of(5, Item::with_id(4)), Some(6));
    assert_eq!(tree.child_of(0, Item::with_id(3)), None);
    assert_eq!(tree.child_of(1, Item::with_id(4)), None);
    assert_eq!(tree.child_of(6, Item::with_id(1)), None);
    assert_eq!(frequencies(&tree, 5), vec![0, 3, 8, 1, 7, 0]);
}

#[test]
fn added_node_lies_on_no_transaction() {
    let mut tree = FPTree::new();
    tree.insert(&ids(&[1, 2]), 3);
    let id = tree.add_node(1, Item::with_id(5));
    assert_eq!(id, 3);
    assert_eq!(tree.child_of(1, Item::with_id(5)), Some(3));
    assert_eq!(frequencies(&tree, 5), vec![0, 3, 3, 0, 0, 0]);
    tree.insert(&ids(&[1, 5, 2]), 4);
    assert_eq!(tree.child_of(3, Item::with_id(2)), Some(4));
    assert_eq!(frequencies(&tree, 5), vec![0, 7, 7, 0, 0, 4]);
    let conditional = tree.construct_conditional_tree(Item::with_id(5));
    assert_eq!(frequencies(&conditional, 5), vec![0, 4, 0, 0, 0, 0]);
}

#[test]
fn conditional_tree_holds_the_paths_above_the_item() {
    let mut tree = FPTree::new();
    tree.insert(&ids(&[1, 2, 3]), 1);
    tree.insert(&ids(&[1, 2, 4]), 2);
    tree.insert(&ids(&[2, 4]), 5);
    tree.insert(&ids(&[4]), 1);
    let four = tree.construct_conditional_tree(Item::with_id(4));
    assert_eq!(frequencies(&four, 4), vec![0, 2, 7, 0, 0]);
    assert_eq!(four.child_of(0, Item::with_id(1)), Some(1));
    assert_eq!(four.child_of(1, Item::with_id(2)), Some(2));
    assert_eq!(four.child_of(0, Item::with_id(2)), Some(3));
    assert_eq!(four.child_of(0, Item::with_id(4)), None);
    let two_of_four = four.construct_conditional_tree(Item::with_id(2));
    assert_eq!(frequencies(&two_of_four, 4), vec![0, 2, 0, 0, 0]);
    let three = tree.construct_conditional_tree(Item::with_id(3));
    assert_eq!(frequencies(&three, 4), vec![0, 1, 1, 0, 0]);
    let one = tree.construct_conditional_tree(Item::with_id(1));
    assert_eq!(frequencies(&one, 4), vec![0, 0, 0, 0, 0]);
    assert_eq!(one.child_of(0, Item::with_id(2)), None);
    let absent = tree.construct_conditional_tree(Item::with_id(9));
    assert_eq!(frequencies(&absent, 9), vec![0; 10]);
    let null = tree.construct_conditional_tree(Item::null());
    assert_eq!(frequencies(&null, 4), vec![0; 5]);
}

#[test]
fn growth_of_a_small_tree() {
    let mut tree = FPTree::new();
    tree.insert(&ids(&[2, 1]), 3);
    tree.insert(&ids(&[2, 3]), 2);
    tree.insert(&ids(&[2, 1, 3]), 1);
    let all = fp_growth(&tree, 0, &[], 6);
    assert_eq!(
        as_pairs(&all),
        vec![
            (vec![1, 2], 4),
            (vec![1], 4),
            (vec![2], 6),
            (vec![1, 2, 3], 1),
            (vec![1, 3], 1),
            (vec![2, 3], 3),
            (vec![3], 3),
        ]
    );
    let above_one = fp_growth(&tree, 1, &[], 6);
    assert_eq!(
        as_pairs(&above_one),
        vec![(vec![1, 2], 4), (vec![1], 4), (vec![2], 6), (vec![2, 3], 3), (vec![3], 3)]
    );
    // a count of exactly `min_count` is not frequent
    assert_eq!(as_pairs(&fp_growth(&tree, 4, &[], 6)), vec![(vec![2], 6)]);
    assert_eq!(as_pairs(&fp_growth(&tree, 3, &[], 6)), vec![(vec![1, 2], 4), (vec![1], 4), (vec![2], 6)]);
    assert!(fp_growth(&tree, 6, &[], 6).is_empty());
    assert!(fp_growth(&tree, u32::MAX, &[], 6).is_empty());
    assert!(fp_growth(&FPTree::new(), 0, &[], 0).is_empty());
}

#[test]
fn growth_extends_the_path_and_caps_the_count() {
    let mut tree = FPTree::new();
    tree.insert(&ids(&[2, 1]), 3);
    tree.insert(&ids(&[2]), 2);
    let found = fp_growth(&tree, 0, &ids(&[9, 7]), 4);
    assert_eq!(
        as_pairs(&found),
        vec![(vec![1, 2, 7, 9], 3), (vec![1, 7, 9], 3), (vec![2, 7, 9], 4)]
    );
    let branch = grow_branch(&tree, 0, &ids(&[9]), 10, Item::with_id(1));
    assert_eq!(as_pairs(&branch), vec![(vec![1, 2, 9], 3), (vec![1, 9], 3)]);
}

fn naive_frequent(transactions: &Vec<Vec<Item>>, min_count: u32) -> BTreeMap<Vec<u32>, u32> {
    let mut vocabulary: Vec<u32> =
        transactions.iter().flat_map(|t| t.iter().map(|item| item.id)).collect();
    vocabulary.sort();
    vocabulary.dedup();
    let mut found = BTreeMap::new();
    for mask in 1u32..(1 << vocabulary.len()) {
        let subset: Vec<u32> = vocabulary
            .iter()
            .enumerate()
            .filter(|(bit, _)| mask & (1 << bit) != 0)
            .map(|(_, id)| *id)
            .collect();
        let count = transactions
            .iter()
            .filter(|t| subset.iter().all(|id| t.contains(&Item::with_id(*id))))
            .count() as u32;
        if count > min_count {
            found.insert(subset, count);
        }
    }
    found
}

fn synthetic(seed: u64, rows: usize, vocabulary: u32) -> Vec<Vec<Item>> {
    let mut state = seed;
    let mut transactions = Vec::new();
    for _ in 0..rows {
        let mut transaction = Vec::new();
        for id in 1..=vocabulary {
            state = state.wrapping_mul(6364136223846793005).wrapping_add(1442695040888963407);
            if (state >> 33) % 100 < 20 + 7 * (id as u64 % 5) {
                transaction.push(Item::with_id(id));
            }
        }
        transactions.push(transaction);
    }
    transactions
}

#[test]
fn growth_finds_what_naive_counting_finds() {
    for (seed, rows, vocabulary) in [(1u64, 40usize, 6u32), (7, 25, 8), (99, 60, 5), (3, 1, 4)] {
        let transactions = synthetic(seed, rows, vocabulary);
        let (item_count, n) = count_item_frequencies(&transactions);
        assert_eq!(n, rows);
        for min_count in [0u32, 1, 2, 5, 11] {
            let tree = build_tree(&transactions, &item_count, min_count);
            let mined = fp_growth(&tree, min_count, &[], rows as u32);
            let expected = naive_frequent(&transactions, min_count);
            assert_eq!(mined.len(), expected.len());
            let as_map: BTreeMap<Vec<u32>, u32> = as_pairs(&mined).into_iter().collect();
            assert_eq!(as_map, expected);
            for set in &mined {
                assert!(set.items.windows(2).all(|pair| pair[0] < pair[1]));
            }
        }
    }
}

#[test]
fn tree_takes_frequent_items_in_falling_order() {
    let transactions = vec![ids(&[1, 2, 3]), ids(&[2, 3]), ids(&[3, 4]), ids(&[1, 3])];
    let (item_count, n) = count_item_frequencies(&transactions);
    assert_eq!(n, 4);
    let expected: Vec<u32> = vec![0, 2, 2, 4, 1];
    let got: Vec<u32> = (0..5).map(|id| item_count.get(&Item::with_id(id))).collect();
    assert_eq!(got, expected);
    let tree = build_tree(&transactions, &item_count, 1);
    // the item 4 is dropped; 3 comes first, then 2 before 1
    assert_eq!(tree.child_of(0, Item::with_id(3)), Some(1));
    assert_eq!(tree.child_of(1, Item::with_id(2)), Some(2));
    assert_eq!(tree.child_of(2, Item::with_id(1)), Some(3));
    assert_eq!(tree.child_of(1, Item::with_id(1)), Some(4));
    assert_eq!(tree.child_of(1, Item::with_id(4)), None);
    assert_eq!(tree.child_of(0, Item::with_id(4)), None);
    assert_eq!(frequencies(&tree, 4), vec![0, 2, 2, 4, 0]);
    let empty = build_tree(&transactions, &ItemCounter::new(), 0);
    assert_eq!(frequencies(&empty, 4), vec![0; 5]);
}
