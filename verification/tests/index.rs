use assoc_rules::counter::Counter;
use assoc_rules::index::Index;
use assoc_rules::item::Item;
use assoc_rules::item_count::ItemCount;
use assoc_rules::itemizer::Itemizer;
use assoc_rules::ratio::Ratio;

fn as_float(ratio: Ratio) -> f64 {
    ratio.numerator as f64 / ratio.denominator as f64
}

#[test]
fn test_index() {
    let mut index = Index::new();
    let transactions = vec![
        vec!["a", "b", "c", "d", "e", "f"],
        vec!["g", "h", "i", "j", "k", "l"],
        vec!["z", "x"],
        vec!["z", "x"],
        vec!["z", "x", "y"],
        vec!["z", "x", "y", "i"],
    ];
    let mut itemizer: Itemizer = Itemizer::new();
    for line in &transactions {
        let transaction = line.iter()
            .map(|s| itemizer.id_of(s.trim()))
            .collect::<Vec<Item>>();
        index.insert(&transaction);
    }

    assert_eq!(as_float(index.support(&vec![itemizer.id_of("a")])), 1.0 / 6.0);
    assert_eq!(as_float(index.support(&vec![itemizer.id_of("b")])), 1.0 / 6.0);
    assert_eq!(as_float(index.support(&vec![itemizer.id_of("c")])), 1.0 / 6.0);
    assert_eq!(as_float(index.support(&vec![itemizer.id_of("d")])), 1.0 / 6.0);
    assert_eq!(as_float(index.support(&vec![itemizer.id_of("e")])), 1.0 / 6.0);
    assert_eq!(as_float(index.support(&vec![itemizer.id_of("f")])), 1.0 / 6.0);
    assert_eq!(as_float(index.support(&vec![itemizer.id_of("h")])), 1.0 / 6.0);
    assert_eq!(as_float(index.support(&vec![itemizer.id_of("i")])), 2.0 / 6.0);
    assert_eq!(as_float(index.support(&vec![itemizer.id_of("j")])), 1.0 / 6.0);
    assert_eq!(as_float(index.support(&vec![itemizer.id_of("k")])), 1.0 / 6.0);
    assert_eq!(as_float(index.support(&vec![itemizer.id_of("l")])), 1.0 / 6.0);
    assert_eq!(as_float(index.support(&vec![itemizer.id_of("z")])), 4.0 / 6.0);
    assert_eq!(as_float(index.support(&vec![itemizer.id_of("x")])), 4.0 / 6.0);
    assert_eq!(as_float(index.support(&vec![itemizer.id_of("y")])), 2.0 / 6.0);
    assert_eq!(
        as_float(index.support(&vec![itemizer.id_of("x"), itemizer.id_of("z")])),
        4.0 / 6.0
    );
    assert!(
        as_float(index.support(&vec![
            itemizer.id_of("x"),
            itemizer.id_of("y"),
            itemizer.id_of("z"),
        ])) == 2.0 / 6.0
    );
}

#[test]
fn index_counts_transactions_that_hold_all_items() {
    let mut index = Index::new();
    let ids = |nums: &[u32]| -> Vec<Item> { nums.iter().map(|&i| Item::with_id(i)).collect() };
    assert_eq!(index.count(&ids(&[1])), 0);
    for transaction in [&[1u32, 2, 3][..], &[3, 1], &[2], &[], &[5, 3, 2, 1], &[2, 5]] {
        index.insert(&ids(transaction));
    }
    assert_eq!(index.count(&ids(&[])), 0);
    assert_eq!(index.count(&ids(&[1])), 3);
    assert_eq!(index.count(&ids(&[2])), 4);
    assert_eq!(index.count(&ids(&[4])), 0);
    assert_eq!(index.count(&ids(&[9])), 0);
    assert_eq!(index.count(&ids(&[1, 3])), 3);
    assert_eq!(index.count(&ids(&[3, 1])), 3);
    assert_eq!(index.count(&ids(&[2, 5])), 2);
    assert_eq!(index.count(&ids(&[5, 2])), 2);
    assert_eq!(index.count(&ids(&[1, 2, 3])), 2);
    assert_eq!(index.count(&ids(&[1, 2, 3, 5])), 1);
    assert_eq!(index.count(&ids(&[1, 4])), 0);
    assert_eq!(index.count(&ids(&[1, 9])), 0);
    assert_eq!(index.count(&ids(&[9, 1])), 0);
    assert_eq!(index.count(&ids(&[2, 2])), 4);
    assert_eq!(index.support(&ids(&[2, 5])), Ratio::new(2, 6));
}

#[test]
fn hash_counters_count() {
    let mut items = ItemCount::new();
    assert_eq!(items.get(&Item::with_id(4)), 0);
    items.add(&Item::with_id(4), 3);
    items.add(&Item::with_id(4), 2);
    items.add(&Item::with_id(1), 1);
    assert_eq!(items.get(&Item::with_id(4)), 5);
    assert_eq!(items.get(&Item::with_id(1)), 1);
    assert_eq!(items.get(&Item::with_id(2)), 0);

    let mut counter: Counter<u64> = Counter::new();
    assert_eq!(counter.get(&7), 0);
    counter.add(&7, 2);
    counter.add(&9, 5);
    counter.add(&7, 4);
    counter.add(&3, 6);
    counter.add(&8, 0);
    assert_eq!(counter.get(&7), 6);
    assert_eq!(counter.get(&9), 5);
    assert_eq!(counter.get(&8), 0);
    let mut above = counter.items_with_count_at_least(5);
    above.sort();
    assert_eq!(above, vec![3, 7]);
    let mut all = counter.items_with_count_at_least(0);
    all.sort();
    assert_eq!(all, vec![3, 7, 9]);
    assert!(counter.items_with_count_at_least(6).is_empty());
}
