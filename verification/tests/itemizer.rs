use assoc_rules::item::Item;
use assoc_rules::item_counter::ItemCounter;
use assoc_rules::itemizer::Itemizer;

#[test]
fn identifiers_start_at_one_and_are_kept() {
    let mut itemizer = Itemizer::new();
    assert_eq!(itemizer.id_of("pear"), Item::with_id(1));
    assert_eq!(itemizer.id_of("apple"), Item::with_id(2));
    assert_eq!(itemizer.id_of("pear"), Item::with_id(1));
    assert_eq!(itemizer.id_of("fig"), Item::with_id(3));
    assert_eq!(itemizer.len(), 3);
    assert_eq!(itemizer.str_of(Item::with_id(1)), "pear");
    assert_eq!(itemizer.str_of(Item::with_id(2)), "apple");
    assert_eq!(itemizer.str_of(Item::with_id(3)), "fig");
}

#[test]
fn reordering_sorts_names_and_moves_counts() {
    let mut itemizer = Itemizer::new();
    let mut counter = ItemCounter::new();
    let names = ["pear", "apple", "fig", "Zebra", "apples", ""];
    let counts = [4u32, 9, 1, 7, 3, 2];
    let mut before = Vec::new();
    for (name, count) in names.iter().zip(counts.iter()) {
        let id = itemizer.id_of(name);
        counter.add(&id, *count);
        before.push((name.to_string(), *count));
    }
    itemizer.reorder_sorted(&mut counter);
    assert_eq!(itemizer.len(), 6);
    let sorted = ["", "Zebra", "apple", "apples", "fig", "pear"];
    for (index, name) in sorted.iter().enumerate() {
        let id = Item::with_id(index as u32 + 1);
        assert_eq!(itemizer.str_of(id), *name);
        assert_eq!(itemizer.id_of(name), id);
    }
    for i in 1..6u32 {
        assert!(itemizer.str_of(Item::with_id(i)) < itemizer.str_of(Item::with_id(i + 1)));
    }
    for (name, count) in before {
        let id = itemizer.id_of(&name);
        assert_eq!(counter.get(&id), count);
    }
    assert_eq!(counter.get(&Item::null()), 0);
    assert_eq!(counter.get(&Item::with_id(7)), 0);
}

#[test]
fn reordering_an_empty_table() {
    let mut itemizer = Itemizer::new();
    let mut counter = ItemCounter::new();
    counter.add(&Item::with_id(3), 5);
    itemizer.reorder_sorted(&mut counter);
    assert_eq!(itemizer.len(), 0);
    assert_eq!(counter.get(&Item::with_id(3)), 0);
    assert_eq!(counter.items_with_count_at_least(0), Vec::<Item>::new());
}

#[test]
fn names_are_ordered_by_code_point() {
    let mut itemizer = Itemizer::new();
    let mut counter = ItemCounter::new();
    for name in ["b", "\u{10000}", "a", "\u{ff5e}", "ab", "B"] {
        itemizer.id_of(name);
    }
    itemizer.reorder_sorted(&mut counter);
    let sorted = ["B", "a", "ab", "b", "\u{ff5e}", "\u{10000}"];
    for (index, name) in sorted.iter().enumerate() {
        assert_eq!(itemizer.str_of(Item::with_id(index as u32 + 1)), *name);
    }
}
