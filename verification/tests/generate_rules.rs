use assoc_rules::generate_rules::{
    create_support_lookup, generate_rules, generate_rules_for_itemset,
};
use assoc_rules::item::Item;
use assoc_rules::itemset::ItemSet;
use assoc_rules::ratio::Ratio;
use assoc_rules::rule::Rule;
use assoc_rules::vec_sets::union;
use std::collections::{HashMap, HashSet};

type Key = (Vec<Item>, Vec<Item>);

fn to_item_vec(nums: &[u32]) -> Vec<Item> {
    nums.iter().map(|&i| Item::with_id(i)).collect()
}

fn fuzzy_float_eq(a: f64, b: f64) -> bool {
    (a - b).abs() < 0.001
}

fn as_float(ratio: Ratio) -> f64 {
    ratio.numerator as f64 / ratio.denominator as f64
}

fn key_of(rule: &Rule) -> Key {
    (rule.antecedent.clone(), rule.consequent.clone())
}

fn keys_of(rules: &Vec<Vec<Rule>>) -> Vec<Vec<Key>> {
    rules.iter().map(|chunk| chunk.iter().map(key_of).collect()).collect()
}

fn key(antecedent: &[u32], consequent: &[u32]) -> Key {
    (to_item_vec(antecedent), to_item_vec(consequent))
}

fn naive_add_rules_for(
    rules: &mut HashMap<Key, (f64, f64, f64)>,
    items: &[Item],
    antecedent: &mut Vec<Item>,
    consequent: &mut Vec<Item>,
    counts: &HashMap<Vec<Item>, u32>,
    dataset_size: u32,
    min_confidence: f64,
    min_lift: Option<f64>,
) {
    if items.is_empty() {
        if antecedent.is_empty() || consequent.is_empty() {
            return;
        }
        let both = union(antecedent, consequent);
        let support = counts[&both] as f64 / dataset_size as f64;
        let a_sup = counts[&antecedent[..]] as f64 / dataset_size as f64;
        let c_sup = counts[&consequent[..]] as f64 / dataset_size as f64;
        let confidence = support / a_sup;
        let lift = support / (a_sup * c_sup);
        let min_lift = min_lift.unwrap_or(0.0);
        if confidence >= min_confidence && lift >= min_lift {
            rules.insert(
                (antecedent.to_vec(), consequent.to_vec()),
                (confidence, lift, support),
            );
        }
        return;
    }
    let item = items[0];

    antecedent.push(item);
    naive_add_rules_for(
        rules,
        &items[1..],
        antecedent,
        consequent,
        counts,
        dataset_size,
        min_confidence,
        min_lift,
    );
    antecedent.pop();

    consequent.push(item);
    naive_add_rules_for(
        rules,
        &items[1..],
        antecedent,
        consequent,
        counts,
        dataset_size,
        min_confidence,
        min_lift,
    );
    consequent.pop();
}

fn naive_generate_rules(
    itemsets: &Vec<ItemSet>,
    dataset_size: u32,
    min_confidence: f64,
    min_lift: Option<f64>,
) -> HashMap<Key, (f64, f64, f64)> {
    let counts: HashMap<Vec<Item>, u32> = create_support_lookup(itemsets).into_iter().collect();
    let mut rules = HashMap::new();
    for itemset in itemsets.iter().filter(|set| set.items.len() > 1) {
        naive_add_rules_for(
            &mut rules,
            &itemset.items,
            &mut vec![],
            &mut vec![],
            &counts,
            dataset_size,
            min_confidence,
            min_lift,
        );
    }
    rules
}

#[test]
fn test_kosarak() {
    // Kosarak's itemsets with minsup=0.05, minconf=0.05.
    // 990002 transactions.
    let kosarak: Vec<ItemSet> = [
        (vec![1, 6, 11], 86092),
        (vec![1, 11], 91882),
        (vec![1, 3, 6], 57802),
        (vec![1, 3], 84660),
        (vec![1, 6], 132113),
        (vec![1], 197522),
        (vec![55], 65412),
        (vec![4], 78097),
        (vec![6], 601374),
        (vec![3, 6, 11], 143682),
        (vec![3, 11], 161286),
        (vec![6, 11], 324013),
        (vec![11], 364065),
        (vec![6, 148, 218], 56838),
        (vec![6, 11, 148, 218], 49866),
        (vec![11, 148, 218], 50098),
        (vec![148, 218], 58823),
        (vec![6, 11, 148], 55230),
        (vec![11, 148], 55759),
        (vec![6, 148], 64750),
        (vec![148], 69922),
        (vec![6, 11, 218], 60630),
        (vec![11, 218], 61656),
        (vec![6, 218], 77675),
        (vec![218], 88598),
        (vec![6, 7, 11], 55835),
        (vec![7, 11], 57074),
        (vec![6, 7], 73610),
        (vec![7], 86898),
        (vec![3, 6], 265180),
        (vec![3], 450031),
        (vec![6, 27], 59418),
        (vec![27], 72134),
    ]
    .iter()
    .map(|&(ref i, c)| ItemSet::new(to_item_vec(&i), c))
    .collect();

    // (Antecedent, Consequent) -> (Confidence, Lift, Support)
    let expected_rules: HashMap<(Vec<Item>, Vec<Item>), (f64, f64, f64)> = [
        ((vec![6], vec![1, 11]), (0.143, 1.542, 0.0870)),
        ((vec![11], vec![1, 6]), (0.236, 1.772, 0.0870)),
        ((vec![218], vec![148]), (0.664, 9.400, 0.059)),
        ((vec![148, 218], vec![6]), (0.966, 1.591, 0.057)),
        ((vec![1, 6], vec![11]), (0.652, 1.772, 0.087)),
        ((vec![11, 218], vec![6, 148]), (0.809, 12.366, 0.050)),
        ((vec![11], vec![7]), (0.157, 1.786, 0.058)),
        ((vec![11], vec![6, 148, 218]), (0.137, 2.386, 0.050)),
        ((vec![11], vec![148, 218]), (0.138, 2.316, 0.051)),
        ((vec![11, 218], vec![6]), (0.983, 1.619, 0.061)),
        ((vec![7, 11], vec![6]), (0.978, 1.610, 0.056)),
        ((vec![148], vec![11]), (0.797, 2.168, 0.056)),
        ((vec![11], vec![6, 148]), (0.152, 2.319, 0.056)),
        ((vec![218], vec![11]), (0.696, 1.892, 0.062)),
        ((vec![218], vec![11, 148]), (0.565, 10.040, 0.051)),
        ((vec![148], vec![6]), (0.926, 1.524, 0.065)),
        ((vec![6, 11], vec![148]), (0.170, 2.413, 0.056)),
        ((vec![11], vec![6, 7]), (0.153, 2.063, 0.056)),
        ((vec![11, 148], vec![218]), (0.898, 10.040, 0.051)),
        ((vec![148], vec![6, 11, 218]), (0.713, 11.645, 0.050)),
        ((vec![6], vec![11, 148, 218]), (0.083, 1.639, 0.050)),
        ((vec![7], vec![6, 11]), (0.643, 1.963, 0.056)),
        ((vec![6, 11, 148], vec![218]), (0.903, 10.089, 0.050)),
        ((vec![148], vec![6, 218]), (0.813, 10.360, 0.057)),
        ((vec![148], vec![6, 11]), (0.790, 2.413, 0.056)),
        ((vec![6, 148], vec![218]), (0.878, 9.809, 0.057)),
        ((vec![11], vec![148]), (0.153, 2.168, 0.056)),
        ((vec![11, 148], vec![6]), (0.991, 1.631, 0.056)),
        ((vec![6, 148, 218], vec![11]), (0.877, 2.386, 0.050)),
        ((vec![6], vec![148, 218]), (0.095, 1.591, 0.057)),
        ((vec![11], vec![6, 218]), (0.167, 2.123, 0.061)),
        ((vec![218], vec![6, 148]), (0.642, 9.809, 0.057)),
        ((vec![6, 148], vec![11]), (0.853, 2.319, 0.056)),
        ((vec![6, 11], vec![7]), (0.172, 1.963, 0.056)),
        ((vec![218], vec![6, 11, 148]), (0.563, 10.089, 0.050)),
        ((vec![148, 218], vec![11]), (0.852, 2.316, 0.051)),
        ((vec![6, 148], vec![11, 218]), (0.770, 12.366, 0.050)),
        ((vec![148], vec![11, 218]), (0.716, 11.504, 0.051)),
        ((vec![218], vec![6, 11]), (0.684, 2.091, 0.061)),
        ((vec![11, 148, 218], vec![6]), (0.995, 1.639, 0.050)),
        ((vec![11], vec![218]), (0.169, 1.892, 0.062)),
        ((vec![1, 11], vec![6]), (0.937, 1.542, 0.087)),
        ((vec![6, 11], vec![218]), (0.187, 2.091, 0.061)),
        ((vec![6], vec![148]), (0.108, 1.524, 0.065)),
        ((vec![6], vec![11, 148]), (0.092, 1.631, 0.056)),
        ((vec![148, 218], vec![6, 11]), (0.848, 2.590, 0.050)),
        ((vec![6, 218], vec![11]), (0.781, 2.123, 0.061)),
        ((vec![6, 7], vec![11]), (0.759, 2.063, 0.056)),
        ((vec![6], vec![11, 218]), (0.101, 1.619, 0.061)),
        ((vec![11, 218], vec![148]), (0.813, 11.504, 0.051)),
        ((vec![6, 11], vec![148, 218]), (0.154, 2.590, 0.050)),
        ((vec![148], vec![218]), (0.841, 9.400, 0.059)),
        ((vec![7], vec![11]), (0.657, 1.786, 0.058)),
        ((vec![6, 218], vec![11, 148]), (0.642, 11.398, 0.050)),
        ((vec![6, 11, 218], vec![148]), (0.822, 11.645, 0.050)),
        ((vec![6, 218], vec![148]), (0.732, 10.360, 0.057)),
        ((vec![6], vec![7, 11]), (0.093, 1.610, 0.056)),
        ((vec![11, 148], vec![6, 218]), (0.894, 11.398, 0.050)),
    ]
    .iter()
    .map(|&((ref a, ref c), (cnf, lft, sup))| {
        ((to_item_vec(a), to_item_vec(c)), (cnf, lft, sup))
    })
    .collect();

    let generated_rules =
        generate_rules(&kosarak, 990002, Ratio::new(5, 100), Some(Ratio::new(15, 10)));
    let num_rules: usize = generated_rules.iter().map(|ref x| x.len()).sum();
    assert_eq!(num_rules, expected_rules.len());

    let naive_rules = naive_generate_rules(&kosarak, 990002, 0.05, Some(1.5));
    assert_eq!(naive_rules.len(), num_rules);

    for (k, &(naive_confidence, naive_lift, naive_support)) in &naive_rules {
        assert_eq!(expected_rules.contains_key(k), true);
        let (confidence, lift, support) = expected_rules[k];
        assert!(fuzzy_float_eq(naive_confidence, confidence));
        assert!(fuzzy_float_eq(naive_lift, lift));
        assert!(fuzzy_float_eq(naive_support, support));
    }

    let mut seen: HashSet<Key> = HashSet::new();
    for chunk in &generated_rules {
        for rule in chunk {
            let k = (rule.antecedent.clone(), rule.consequent.clone());
            assert_eq!(naive_rules.contains_key(&k), true);
            assert!(seen.insert(k.clone()));
            let (confidence, lift, support) = expected_rules[&k];
            assert!(fuzzy_float_eq(as_float(rule.confidence()), confidence));
            assert!(fuzzy_float_eq(as_float(rule.lift()), lift));
            assert!(fuzzy_float_eq(as_float(rule.support()), support));
        }
    }
}

fn small_table(count_23: u32, with_12: bool) -> Vec<ItemSet> {
    let mut sets = vec![
        ItemSet::new(to_item_vec(&[1]), 80),
        ItemSet::new(to_item_vec(&[2]), 80),
        ItemSet::new(to_item_vec(&[3]), 10),
        ItemSet::new(to_item_vec(&[1, 3]), 20),
        ItemSet::new(to_item_vec(&[2, 3]), count_23),
    ];
    if with_12 {
        sets.push(ItemSet::new(to_item_vec(&[1, 2]), 10));
    }
    sets
}

#[test]
fn low_lift_consequent_still_seeds_the_next_level() {
    let table = create_support_lookup(&small_table(20, true));
    let rules = generate_rules_for_itemset(
        &to_item_vec(&[1, 2, 3]),
        10,
        &table,
        100,
        Ratio::new(1, 10),
        Ratio::new(2, 1),
    );
    let keys: Vec<Key> = rules.iter().map(key_of).collect();
    assert_eq!(keys, vec![key(&[1, 2], &[3]), key(&[3], &[1, 2])]);
    assert_eq!(rules[1].itemset_count, 10);
    assert_eq!(rules[1].antecedent_count, 10);
    assert_eq!(rules[1].consequent_count, 10);
    assert_eq!(rules[1].dataset_size, 100);
    assert_eq!(rules[1].confidence(), Ratio::new(10, 10));
    assert_eq!(rules[1].lift(), Ratio::new(1000, 100));
    assert_eq!(rules[1].support(), Ratio::new(10, 100));
}

#[test]
fn low_confidence_consequent_is_merged_no_further() {
    let table = create_support_lookup(&small_table(200, true));
    let rules = generate_rules_for_itemset(
        &to_item_vec(&[1, 2, 3]),
        10,
        &table,
        100,
        Ratio::new(1, 10),
        Ratio::new(2, 1),
    );
    let keys: Vec<Key> = rules.iter().map(key_of).collect();
    assert_eq!(keys, vec![key(&[1, 2], &[3])]);
}

#[test]
fn rule_with_an_unknown_side_is_rejected() {
    let table = create_support_lookup(&small_table(20, false));
    let rules = generate_rules_for_itemset(
        &to_item_vec(&[1, 2, 3]),
        10,
        &table,
        100,
        Ratio::new(1, 10),
        Ratio::new(0, 1),
    );
    let keys: Vec<Key> = rules.iter().map(key_of).collect();
    // neither the rule from {1, 2} nor the rule to {1, 2} can be rated
    assert_eq!(keys, vec![key(&[2, 3], &[1]), key(&[1, 3], &[2])]);
}

#[test]
fn rules_come_by_level_then_by_consequent() {
    let sets: Vec<ItemSet> = [
        (vec![1], 8),
        (vec![2], 8),
        (vec![3], 8),
        (vec![4], 8),
        (vec![1, 2], 6),
        (vec![1, 3], 6),
        (vec![1, 4], 6),
        (vec![2, 3], 6),
        (vec![2, 4], 6),
        (vec![3, 4], 6),
        (vec![1, 2, 3], 5),
        (vec![1, 2, 4], 5),
        (vec![1, 3, 4], 5),
        (vec![2, 3, 4], 5),
        (vec![1, 2, 3, 4], 4),
    ]
    .iter()
    .map(|(items, count)| ItemSet::new(to_item_vec(items), *count))
    .collect();
    let table = create_support_lookup(&sets);
    let rules = generate_rules_for_itemset(
        &to_item_vec(&[1, 2, 3, 4]),
        4,
        &table,
        10,
        Ratio::new(0, 1),
        Ratio::new(0, 1),
    );
    let consequents: Vec<Vec<Item>> = rules.iter().map(|rule| rule.consequent.clone()).collect();
    let expected: Vec<Vec<Item>> = [
        vec![1],
        vec![2],
        vec![3],
        vec![4],
        vec![1, 2],
        vec![1, 3],
        vec![1, 4],
        vec![2, 3],
        vec![2, 4],
        vec![3, 4],
        vec![1, 2, 3],
        vec![1, 2, 4],
        vec![1, 3, 4],
        vec![2, 3, 4],
    ]
    .iter()
    .map(|items| to_item_vec(items))
    .collect();
    assert_eq!(consequents, expected);
    for rule in &rules {
        assert_eq!(union(&rule.antecedent, &rule.consequent), to_item_vec(&[1, 2, 3, 4]));
        assert!(!rule.antecedent.is_empty() && !rule.consequent.is_empty());
        assert!(rule.antecedent.iter().all(|item| !rule.consequent.contains(item)));
        assert!(rule.antecedent.windows(2).all(|pair| pair[0] < pair[1]));
        assert!(rule.consequent.windows(2).all(|pair| pair[0] < pair[1]));
    }
}

#[test]
fn thresholds_are_met_exactly() {
    let sets: Vec<ItemSet> = [(vec![1], 4), (vec![2], 6), (vec![1, 2], 3)]
        .iter()
        .map(|(items, count)| ItemSet::new(to_item_vec(items), *count))
        .collect();
    // confidence of 1 => 2 is 3/4, of 2 => 1 it is 3/6; the lift of both is 3*12/(4*6) = 3/2
    let both = vec![vec![key(&[2], &[1]), key(&[1], &[2])]];
    let strong = vec![vec![key(&[1], &[2])]];
    let none: Vec<Vec<Key>> = vec![vec![]];
    let run = |confidence: Ratio, lift: Option<Ratio>| {
        keys_of(&generate_rules(&sets, 12, confidence, lift))
    };
    assert_eq!(run(Ratio::new(1, 2), None), both);
    assert_eq!(run(Ratio::new(1, 2), Some(Ratio::new(3, 2))), both);
    assert_eq!(run(Ratio::new(501, 1000), Some(Ratio::new(3, 2))), strong);
    assert_eq!(run(Ratio::new(3, 4), Some(Ratio::new(3, 2))), strong);
    assert_eq!(run(Ratio::new(751, 1000), None), none);
    assert_eq!(run(Ratio::new(1, 2), Some(Ratio::new(1501, 1000))), none);
}

#[test]
fn single_items_and_empty_input_give_no_rules() {
    let sets = vec![ItemSet::new(to_item_vec(&[1]), 4), ItemSet::new(to_item_vec(&[2]), 6)];
    assert!(generate_rules(&sets, 10, Ratio::new(0, 1), None).is_empty());
    assert!(generate_rules(&vec![], 0, Ratio::new(0, 1), None).is_empty());
    let table = create_support_lookup(&sets);
    let rules =
        generate_rules_for_itemset(&to_item_vec(&[1]), 4, &table, 10, Ratio::new(0, 1), Ratio::new(0, 1));
    assert!(rules.is_empty());
}

#[test]
fn later_count_replaces_earlier_in_the_table() {
    let sets = vec![
        ItemSet::new(to_item_vec(&[1]), 4),
        ItemSet::new(to_item_vec(&[2, 1]), 3),
        ItemSet::new(to_item_vec(&[1]), 9),
    ];
    let table = create_support_lookup(&sets);
    assert_eq!(table.len(), 2);
    assert_eq!(table[&to_item_vec(&[1])], 9);
    assert_eq!(table[&to_item_vec(&[1, 2])], 3);
}

#[test]
fn ratio_is_compared_by_cross_multiplication() {
    assert!(Ratio::new(1, 2).is_reached_by(1, 2));
    assert!(Ratio::new(1, 2).is_reached_by(2, 3));
    assert!(!Ratio::new(1, 2).is_reached_by(1, 3));
    assert!(Ratio::new(0, 1).is_reached_by(0, 5));
    assert!(Ratio::new(3, 2).is_reached_by(u64::MAX, u64::MAX / 2));
    assert!(!Ratio::new(u64::MAX, 1).is_reached_by(u64::MAX - 1, 1));
    assert!(Ratio::new(5, 7).is_reached_by(1, 0));
    assert!(!Ratio::new(1, 0).is_reached_by(5, 1));
}

#[test]
fn itemset_is_sorted_when_made() {
    let set = ItemSet::new(to_item_vec(&[9, 2, 7, 2, 1]), 5);
    assert_eq!(set.items, to_item_vec(&[1, 2, 2, 7, 9]));
    assert_eq!(set.count, 5);
    assert_eq!(set.len(), 5);
    assert_eq!(ItemSet::new(vec![], 0).len(), 0);
}
