use assoc_rules::item::Item;
use assoc_rules::mining::{min_count, mine_fp_growth, read_transactions, Mining};
use assoc_rules::itemizer::Itemizer;
use assoc_rules::ratio::Ratio;
use assoc_rules::rule::Rule;

fn lines_of(text: &[&str]) -> Vec<String> {
    text.iter().map(|line| line.to_string()).collect()
}

fn names(items: &[Item], mining: &Mining) -> String {
    let parts: Vec<&str> = items.iter().map(|&item| mining.itemizer.str_of(item)).collect();
    parts.join(" ")
}

fn written(mining: &Mining) -> Vec<String> {
    let mut lines = Vec::new();
    for chunk in &mining.rules {
        for rule in chunk {
            lines.push(format!(
                "{} => {}",
                names(&rule.antecedent, mining),
                names(&rule.consequent, mining)
            ));
        }
    }
    lines
}

fn tiny() -> Vec<String> {
    lines_of(&[
        "a,b,c", "d,b,c", "a,b,e", "f,g,c", "d,g,e", "f,b,c", "f,b,c", "a,b,e", "a,b,c", "a,b,e",
        "a,b,e",
    ])
}

#[test]
fn tiny_dataset() {
    let mining =
        mine_fp_growth(&tiny(), Ratio::new(5, 100), Ratio::new(5, 100), Some(Ratio::new(1, 1)))
            .unwrap();
    assert_eq!(mining.num_transactions, 11);
    assert_eq!(mining.min_count, 1);
    assert_eq!(mining.itemizer.len(), 7);
    let counts: Vec<u32> =
        (1..=7).map(|id| mining.item_count.get(&Item::with_id(id))).collect();
    assert_eq!(counts, vec![6, 9, 6, 2, 5, 3, 2]);
    let itemsets: Vec<(Vec<u32>, u32)> = mining
        .itemsets
        .iter()
        .map(|set| (set.items.iter().map(|item| item.id).collect(), set.count))
        .collect();
    assert_eq!(
        itemsets,
        vec![
            (vec![1, 2], 6),
            (vec![1, 2, 3], 2),
            (vec![1, 3], 2),
            (vec![1], 6),
            (vec![2], 9),
            (vec![2, 3], 5),
            (vec![3], 6),
            (vec![4], 2),
            (vec![1, 2, 5], 4),
            (vec![1, 5], 4),
            (vec![2, 5], 4),
            (vec![5], 5),
            (vec![2, 6], 2),
            (vec![2, 3, 6], 2),
            (vec![3, 6], 3),
            (vec![6], 3),
            (vec![7], 2),
        ]
    );
    assert_eq!(
        written(&mining),
        vec![
            "b => a", "a => b", "a c => b", "b => a c", "c => b", "b => c", "b e => a",
            "a e => b", "a b => e", "e => a b", "b => a e", "a => b e", "e => a", "a => e",
            "b f => c", "b c => f", "f => b c", "c => b f", "f => c", "c => f",
        ]
    );
    let rule: &Rule = &mining.rules[1][0];
    assert_eq!(names(&rule.antecedent, &mining), "a c");
    assert_eq!(
        (rule.itemset_count, rule.antecedent_count, rule.consequent_count, rule.dataset_size),
        (2, 2, 9, 11)
    );
    assert_eq!(rule.confidence(), Ratio::new(2, 2));
    assert_eq!(rule.lift(), Ratio::new(22, 18));
    assert_eq!(rule.support(), Ratio::new(2, 11));
}

#[test]
fn sides_of_rules_read_in_rising_order() {
    let lines = lines_of(&[
        "pear, apple,fig",
        "fig,apple",
        "",
        "kiwi , pear,apple",
        "apple,pear, fig ,kiwi",
        "  ",
        "pear,apple",
        "Plum,fig,apple",
    ]);
    let mining = mine_fp_growth(&lines, Ratio::new(1, 10), Ratio::new(0, 1), None).unwrap();
    assert_eq!(mining.num_transactions, 6);
    assert_eq!(mining.transactions.len(), 6);
    let sorted = ["Plum", "apple", "fig", "kiwi", "pear"];
    for (index, name) in sorted.iter().enumerate() {
        assert_eq!(mining.itemizer.str_of(Item::with_id(index as u32 + 1)), *name);
    }
    let mut count = 0;
    for chunk in &mining.rules {
        for rule in chunk {
            for side in [&rule.antecedent, &rule.consequent] {
                let strings: Vec<&str> =
                    side.iter().map(|&item| mining.itemizer.str_of(item)).collect();
                assert!(!strings.is_empty());
                assert!(strings.windows(2).all(|pair| pair[0] < pair[1]));
            }
            count += 1;
        }
    }
    assert_eq!(count, written(&mining).len());
    assert!(count > 0);
    assert!(written(&mining).contains(&"apple fig => pear".to_string()));
}

#[test]
fn empty_dataset_gives_no_rules() {
    for lines in [lines_of(&[]), lines_of(&["", "  ", "\t"])] {
        let mining = mine_fp_growth(&lines, Ratio::new(0, 1), Ratio::new(0, 1), None).unwrap();
        assert_eq!(mining.num_transactions, 0);
        assert_eq!(mining.min_count, 1);
        assert!(mining.itemsets.is_empty());
        assert!(mining.rules.is_empty());
        assert_eq!(mining.itemizer.len(), 0);
    }
}

#[test]
fn threshold_of_support_as_a_count() {
    assert_eq!(min_count(Ratio::new(5, 100), 11), 1);
    assert_eq!(min_count(Ratio::new(1, 2), 11), 6);
    assert_eq!(min_count(Ratio::new(1, 2), 10), 5);
    assert_eq!(min_count(Ratio::new(0, 1), 10), 1);
    assert_eq!(min_count(Ratio::new(1, 1), 10), 10);
    assert_eq!(min_count(Ratio::new(1, 1), 0), 1);
    assert_eq!(min_count(Ratio::new(3, 2), 10), 15);
    assert_eq!(min_count(Ratio::new(1, 3), 10), 4);
    assert_eq!(min_count(Ratio::new(1, 0), 10), u32::MAX);
    assert_eq!(min_count(Ratio::new(0, 0), 10), 1);
    assert_eq!(min_count(Ratio::new(1, 1), u32::MAX), u32::MAX);
    assert_eq!(min_count(Ratio::new(2, 1), u32::MAX), u32::MAX);
    assert_eq!(min_count(Ratio::new(u64::MAX, u64::MAX), 77), 77);
    assert_eq!(min_count(Ratio::new(u64::MAX, 1), 1), u32::MAX);
}

#[test]
fn reading_skips_blank_lines_and_learns_names() {
    let mut itemizer = Itemizer::new();
    let lines = lines_of(&["b,a", "", "a , c,a", " \t", "b"]);
    let read = read_transactions(&lines, &mut itemizer).unwrap();
    let ids: Vec<Vec<u32>> =
        read.iter().map(|t| t.iter().map(|item| item.id).collect()).collect();
    assert_eq!(ids, vec![vec![1, 2], vec![2, 3], vec![1]]);
    assert_eq!(itemizer.len(), 3);
    let again = read_transactions(&lines, &mut itemizer).unwrap();
    assert_eq!(again, read);
    assert_eq!(itemizer.len(), 3);
}

#[test]
fn support_threshold_is_strict() {
    let lines = lines_of(&["a,b", "a,b", "a,c", "a"]);
    // min_count is 2: an itemset must be held by more than 2 transactions
    let mining = mine_fp_growth(&lines, Ratio::new(1, 2), Ratio::new(0, 1), None).unwrap();
    assert_eq!(mining.min_count, 2);
    let itemsets: Vec<(Vec<u32>, u32)> = mining
        .itemsets
        .iter()
        .map(|set| (set.items.iter().map(|item| item.id).collect(), set.count))
        .collect();
    assert_eq!(itemsets, vec![(vec![1], 4)]);
    assert!(mining.rules.is_empty());
}
