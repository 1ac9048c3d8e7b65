use vstd::prelude::*;
use vstd::std_specs::cmp::PartialEqSpecImpl;
use crate::item::Item;
use crate::ratio::Ratio;

verus! {

/// An association rule `antecedent => consequent`, with the counts that its
/// statistics are made of.
#[derive(Clone, Debug)]
pub struct Rule {
    pub antecedent: Vec<Item>,
    pub consequent: Vec<Item>,
    /// How many transactions hold antecedent and consequent together.
    pub itemset_count: u32,
    /// How many transactions hold the antecedent.
    pub antecedent_count: u32,
    /// How many transactions hold the consequent.
    pub consequent_count: u32,
    /// How many transactions there are.
    pub dataset_size: u32,
}

impl Rule {
    /// The share of the transactions that hold the whole rule.
    pub fn support(&self) -> (ratio: Ratio)
        ensures
            ratio.numerator == self.itemset_count,
            ratio.denominator == self.dataset_size,
    {
        Ratio::new(self.itemset_count as u64, self.dataset_size as u64)
    }

    /// Of the transactions that hold the antecedent, the share that holds the
    /// consequent too.
    pub fn confidence(&self) -> (ratio: Ratio)
        ensures
            ratio.numerator == self.itemset_count,
            ratio.denominator == self.antecedent_count,
    {
        Ratio::new(self.itemset_count as u64, self.antecedent_count as u64)
    }

    /// The support of the rule over the product of the supports of its two
    /// sides.
    pub fn lift(&self) -> (ratio: Ratio)
        ensures
            ratio.numerator == self.itemset_count * self.dataset_size,
            ratio.denominator == self.antecedent_count * self.consequent_count,
    {
        let limit: u64 = 0xffff_ffff;
        assert(self.itemset_count * self.dataset_size <= limit * limit) by (nonlinear_arith)
            requires
                0 <= self.itemset_count <= limit,
                0 <= self.dataset_size <= limit,
        ;
        assert(self.antecedent_count * self.consequent_count <= limit * limit)
            by (nonlinear_arith)
            requires
                0 <= self.antecedent_count <= limit,
                0 <= self.consequent_count <= limit,
        ;
        Ratio::new(
            (self.itemset_count as u64) * (self.dataset_size as u64),
            (self.antecedent_count as u64) * (self.consequent_count as u64),
        )
    }
}


/// Whether two lists hold the same items in the same order.
pub fn same_items(a: &Vec<Item>, b: &Vec<Item>) -> (same: bool)
    ensures
        same == (a@ == b@),
{
    if a.len() != b.len() {
        return false;
    }
    let mut i: usize = 0;
    while i < a.len()
        invariant
            a@.len() == b@.len(),
            i <= a@.len(),
            forall|k: int| 0 <= k < i ==> a@[k] == b@[k],
        decreases a@.len() - i,
    {
        if a[i].id != b[i].id {
            return false;
        }
        i += 1;
    }
    assert(a@ =~= b@);
    true
}

/// Two rules are equal where their antecedents and their consequents are:
/// the counts follow from the two sides.
impl PartialEq for Rule {
    fn eq(&self, other: &Rule) -> (equal: bool) {
        same_items(&self.antecedent, &other.antecedent) && same_items(
            &self.consequent,
            &other.consequent,
        )
    }
}

impl PartialEqSpecImpl for Rule {
    open spec fn obeys_eq_spec() -> bool {
        true
    }

    open spec fn eq_spec(&self, other: &Rule) -> bool {
        self.antecedent@ == other.antecedent@ && self.consequent@ == other.consequent@
    }
}

impl Eq for Rule {

}

} // verus!
