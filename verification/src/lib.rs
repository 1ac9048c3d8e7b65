//! Association-rule mining: FP-Growth over an arena-backed FP-tree, followed
//! by level-wise consequent expansion, with every step carried by a contract.

pub mod counter;
pub mod dataset;
pub mod fp_growth;
pub mod fptree;
pub mod generate_rules;
pub mod hashing;
pub mod index;
pub mod item;
pub mod item_count;
pub mod item_counter;
pub mod itemizer;
pub mod itemset;
pub mod mining;
pub mod ratio;
pub mod rule;
pub mod text;
pub mod transaction_reader;
pub mod vec_sets;
