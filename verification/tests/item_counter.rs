use assoc_rules::item::Item;
use assoc_rules::item_counter::ItemCounter;
use std::cmp::Ordering;

fn ids(nums: &[u32]) -> Vec<Item> {
    nums.iter().map(|&i| Item::with_id(i)).collect()
}

#[test]
fn item_basics() {
    assert!(Item::null().is_null());
    assert_eq!(Item::null().as_index(), 0);
    assert!(!Item::with_id(7).is_null());
    assert_eq!(Item::with_id(7).as_index(), 7);
    assert!(Item::with_id(3) < Item::with_id(4));
    assert_eq!(Item::with_id(3), Item::with_id(3));
}

#[test]
fn counter_adds_sets_and_gets() {
    let mut counter = ItemCounter::new();
    assert_eq!(counter.get(&Item::with_id(5)), 0);
    counter.add(&Item::with_id(5), 2);
    counter.add(&Item::with_id(5), 3);
    counter.add(&Item::with_id(2), 1);
    assert_eq!(counter.get(&Item::with_id(5)), 5);
    assert_eq!(counter.get(&Item::with_id(2)), 1);
    assert_eq!(counter.get(&Item::with_id(3)), 0);
    assert_eq!(counter.get(&Item::with_id(6)), 0);
    counter.set(&Item::with_id(5), 1);
    counter.set(&Item::with_id(8), 4);
    assert_eq!(counter.get(&Item::with_id(5)), 1);
    assert_eq!(counter.get(&Item::with_id(8)), 4);
}

#[test]
fn counter_lists_items_by_threshold() {
    let mut counter = ItemCounter::new();
    counter.add(&Item::with_id(1), 3);
    counter.add(&Item::with_id(4), 5);
    counter.add(&Item::with_id(2), 4);
    counter.add(&Item::null(), 9);
    assert_eq!(counter.items_with_count_at_least(4), ids(&[2, 4]));
    assert_eq!(counter.items_with_count_at_least(3), ids(&[1, 2, 4]));
    assert_eq!(counter.items_with_count_at_least(6), ids(&[]));
    assert_eq!(counter.items_with_count_at_least(0), ids(&[1, 2, 3, 4]));
}

#[test]
fn counter_takes_another() {
    let mut counter = ItemCounter::new();
    counter.add(&Item::with_id(1), 3);
    let mut other = ItemCounter::new();
    other.add(&Item::with_id(2), 7);
    counter.take(other);
    assert_eq!(counter.get(&Item::with_id(1)), 0);
    assert_eq!(counter.get(&Item::with_id(2)), 7);
}

#[test]
fn sorts_by_falling_count_then_falling_identifier() {
    let mut counter = ItemCounter::new();
    for (id, count) in [(1u32, 6u32), (2, 9), (3, 5), (4, 2), (5, 5), (6, 3), (7, 2)] {
        counter.add(&Item::with_id(id), count);
    }
    let mut items = ids(&[1, 2, 3, 4, 5, 6, 7]);
    counter.sort_descending(&mut items);
    assert_eq!(items, ids(&[2, 1, 5, 3, 6, 7, 4]));
    let mut some = ids(&[4, 9, 3, 8]);
    counter.sort_descending(&mut some);
    assert_eq!(some, ids(&[3, 4, 9, 8]));
    assert_eq!(
        counter.descending_order(&Item::with_id(2), &Item::with_id(1)),
        Ordering::Less
    );
    assert_eq!(
        counter.descending_order(&Item::with_id(3), &Item::with_id(5)),
        Ordering::Greater
    );
    assert_eq!(
        counter.descending_order(&Item::with_id(3), &Item::with_id(3)),
        Ordering::Equal
    );
}
