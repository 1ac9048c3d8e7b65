use vstd::prelude::*;
use vstd::std_specs::cmp::PartialOrdSpecImpl;
use itertools::Itertools;
use std::cmp::Ordering;
use crate::item::Item;
use crate::vec_sets::{
    lemma_lex_agree, lemma_lex_equal, lemma_lex_first, lex_less, prefix_match_len,
};

verus! {

/// A set of items with the number of transactions that hold all of them.
#[derive(Clone, Debug, PartialEq, Eq, Hash)]
pub struct ItemSet {
    pub items: Vec<Item>,
    pub count: u32,
}

/// Rising by identifier, equal neighbours allowed.
pub open spec fn non_descending(s: Seq<Item>) -> bool {
    forall|i: int, j: int| 0 <= i < j < s.len() ==> s[i].id <= s[j].id
}

/// The order of the items: by identifier.
pub open spec fn id_order() -> spec_fn(Item, Item) -> bool {
    |a: Item, b: Item| a.id <= b.id
}

/// The items of `items` by rising identifier.
pub open spec fn ascending_form(items: Seq<Item>) -> Seq<Item> {
    items.sort_by(id_order())
}

/// The itemsets as plain values: the items of each with its count.
pub open spec fn itemset_views(itemsets: Seq<ItemSet>) -> Seq<(Seq<Item>, u32)> {
    itemsets.map_values(|set: ItemSet| (set.items@, set.count))
}

/// The order by identifier is a total order.
pub proof fn lemma_id_order()
    ensures
        vstd::relations::total_ordering(id_order()),
{
    let leq = id_order();
    assert forall|x: Item, y: Item| #[trigger] leq(x, y) && #[trigger] leq(y, x) implies x == y by {
        assert(x.id == y.id);
    }
}

/// `Itertools::sorted`, on the identifiers of the items. Trusted: what comes
/// back holds the same items, each as often as before, by rising identifier.
#[verifier::external_body]
pub(crate) fn sorted_by_id(items: Vec<Item>) -> (sorted: Vec<Item>)
    ensures
        sorted@.to_multiset() == items@.to_multiset(),
        non_descending(sorted@),
{
    items.into_iter().map(|item| item.id).sorted().map(Item::with_id).collect()
}

impl ItemSet {
    /// The itemset of `items`, brought into rising order, with its count.
    pub fn new(items: Vec<Item>, count: u32) -> (itemset: ItemSet)
        ensures
            itemset.items@.to_multiset() == items@.to_multiset(),
            non_descending(itemset.items@),
            itemset.items@ == ascending_form(items@),
            itemset.count == count,
    {
        let ghost given = items@;
        let sorted = sorted_by_id(items);
        proof {
            lemma_id_order();
            given.lemma_sort_by_ensures(id_order());
            assert(vstd::relations::sorted_by(sorted@, id_order()));
            vstd::seq_lib::lemma_sorted_unique(sorted@, ascending_form(given), id_order());
        }
        ItemSet { items: sorted, count }
    }

    /// How many items the set holds.
    pub fn len(&self) -> (n: usize)
        ensures
            n == self.items@.len(),
    {
        self.items.len()
    }
}


/// Itemsets are ordered by their length first, and those of one length by
/// the order of a dictionary. The count takes no part.
impl PartialOrd for ItemSet {
    fn partial_cmp(&self, other: &ItemSet) -> (order: Option<Ordering>) {
        if self.items.len() < other.items.len() {
            return Some(Ordering::Less);
        }
        if self.items.len() > other.items.len() {
            return Some(Ordering::Greater);
        }
        let shared = prefix_match_len(self.items.as_slice(), other.items.as_slice());
        if shared == self.items.len() {
            proof {
                lemma_lex_equal(self.items@, other.items@);
            }
            Some(Ordering::Equal)
        } else if self.items[shared].id < other.items[shared].id {
            proof {
                lemma_lex_first(self.items@, other.items@, shared);
            }
            Some(Ordering::Less)
        } else {
            proof {
                lemma_lex_agree(self.items@, other.items@);
                lemma_lex_first(other.items@, self.items@, shared);
            }
            Some(Ordering::Greater)
        }
    }
}

impl PartialOrdSpecImpl for ItemSet {
    open spec fn obeys_partial_cmp_spec() -> bool {
        true
    }

    open spec fn partial_cmp_spec(&self, other: &ItemSet) -> Option<Ordering> {
        if self.items@.len() < other.items@.len() {
            Some(Ordering::Less)
        } else if self.items@.len() > other.items@.len() {
            Some(Ordering::Greater)
        } else if lex_less(self.items@, other.items@) {
            Some(Ordering::Less)
        } else if lex_less(other.items@, self.items@) {
            Some(Ordering::Greater)
        } else {
            Some(Ordering::Equal)
        }
    }
}

} // verus!
