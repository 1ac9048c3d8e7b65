use vstd::prelude::*;
use fnv::FnvHashMap;
use crate::item::Item;
use crate::item_counter::ItemCounter;
use crate::text::{lemma_sorted_distinct, rising_names, sorted_names};

verus! {

/// The two-way table between the strings of the items and their
/// identifiers, which run from 1 without a gap.
pub struct Itemizer {
    next_item_id: u32,
    item_str_to_id: FnvHashMap<String, u32>,
    item_id_to_str: Vec<String>,
}

/// What a table of names holds: for each string, its identifier.
pub uninterp spec fn name_entries(names: FnvHashMap<String, u32>) -> Map<Seq<char>, u32>;

/// The table that knows no name.
pub open spec fn no_names() -> Map<Seq<char>, u32> {
    Map::empty()
}

/// The strings as sequences of characters.
pub open spec fn names_of(strings: Seq<String>) -> Seq<Seq<char>> {
    Seq::new(strings.len(), |i: int| strings[i]@)
}

/// `FnvHashMap::default`. Trusted: the new table is empty.
#[verifier::external_body]
fn names_new() -> (names: FnvHashMap<String, u32>)
    ensures
        name_entries(names) == no_names(),
{
    FnvHashMap::default()
}

/// `HashMap::get`. Trusted: the identifier that the table holds for
/// `name`, if it holds one.
#[verifier::external_body]
fn names_get(names: &FnvHashMap<String, u32>, name: &str) -> (id: Option<u32>)
    ensures
        id == (if name_entries(*names).contains_key(name@) {
            Some(name_entries(*names)[name@])
        } else {
            None::<u32>
        }),
{
    names.get(name).copied()
}

/// `HashMap::insert`. Trusted: the table then maps `name` to `id`, and
/// every other string to what it mapped to before.
#[verifier::external_body]
fn names_insert(names: &mut FnvHashMap<String, u32>, name: String, id: u32)
    ensures
        name_entries(*final(names)) == name_entries(*old(names)).insert(name@, id),
{
    names.insert(name, id);
}

/// `slice::sort` of std, on strings. Trusted: the call leaves the same
/// strings, each as often as before, and none stands behind one that comes
/// after it in the order of strings, which goes by the codes of the
/// characters.
#[verifier::external_body]
fn sort_names(names: &mut Vec<String>)
    ensures
        names_of(final(names)@).to_multiset() == names_of(old(names)@).to_multiset(),
        sorted_names(names_of(final(names)@)),
{
    names.sort();
}

/// The identifier of the string `name`, which `names` holds: its place,
/// counted from 1.
pub open spec fn id_in(names: Seq<Seq<char>>, name: Seq<char>) -> int {
    names.index_of(name) + 1
}

/// The frequencies that stand under the new identifiers once the names have
/// been put in the order `after`: each name keeps the frequency it had.
pub open spec fn renumbered(counts: Seq<u32>, before: Seq<Seq<char>>, after: Seq<Seq<char>>) -> Seq<
    u32,
> {
    if after.len() == 0 {
        Seq::empty()
    } else {
        Seq::new(
            after.len() + 1,
            |k: int|
                if k == 0 {
                    0u32
                } else {
                    crate::item_counter::count_in(
                        counts,
                        Item { id: id_in(before, after[k - 1]) as u32 },
                    )
                },
        )
    }
}

impl View for Itemizer {
    type V = Seq<Seq<char>>;

    /// The strings, that of the identifier 1 first.
    closed spec fn view(&self) -> Seq<Seq<char>> {
        names_of(self.item_id_to_str@)
    }
}

spec fn agrees(entries: Map<Seq<char>, u32>, names: Seq<Seq<char>>) -> bool {
    &&& forall|i: int|
        0 <= i < names.len() ==> entries.contains_key(#[trigger] names[i]) && entries[names[i]] == i
            + 1
    &&& forall|name: Seq<char>| #[trigger]
        entries.contains_key(name) ==> names.contains(name)
}

impl Itemizer {
    /// The two directions of the table agree, and no string occurs twice.
    pub closed spec fn wf(&self) -> bool {
        &&& self.next_item_id == self.item_id_to_str@.len() + 1
        &&& agrees(name_entries(self.item_str_to_id), self@)
    }

    /// In a well-formed table no string occurs twice, and the identifiers
    /// fit their type.
    pub proof fn lemma_names_distinct(&self)
        requires
            self.wf(),
        ensures
            self@.no_duplicates(),
            self@.len() < u32::MAX,
    {
        let names = self@;
        let entries = name_entries(self.item_str_to_id);
        assert forall|i: int, j: int| 0 <= i < names.len() && 0 <= j < names.len() && i
            != j implies names[i] != names[j] by {
            assert(entries[names[i]] == i + 1);
            assert(entries[names[j]] == j + 1);
        }
    }

    /// An empty table.
    pub fn new() -> (itemizer: Itemizer)
        ensures
            itemizer.wf(),
            itemizer@.len() == 0,
    {
        Itemizer { next_item_id: 1, item_str_to_id: names_new(), item_id_to_str: Vec::new() }
    }

    /// How many strings the table holds.
    pub fn len(&self) -> (n: usize)
        ensures
            n == self@.len(),
    {
        self.item_id_to_str.len()
    }

    /// The identifier of `item`; a string not seen before gets the next
    /// identifier.
    pub fn id_of(&mut self, item: &str) -> (id: Item)
        requires
            old(self).wf(),
            old(self)@.len() + 2 <= u32::MAX,
        ensures
            final(self).wf(),
            final(self)@ == if old(self)@.contains(item@) {
                old(self)@
            } else {
                old(self)@.push(item@)
            },
            1 <= id.id <= final(self)@.len(),
            final(self)@[id.id - 1] == item@,
            id.id == id_in(final(self)@, item@),
    {
        let ghost names = self@;
        proof {
            self.lemma_names_distinct();
        }
        match names_get(&self.item_str_to_id, item) {
            Some(id) => {
                proof {
                    assert(names.contains(item@));
                    let i = names.index_of(item@);
                    assert(names[i] == item@);
                }
                Item::with_id(id)
            },
            None => {
                proof {
                    if names.contains(item@) {
                        let i = choose|i: int| 0 <= i < names.len() && names[i] == item@;
                        assert(name_entries(self.item_str_to_id).contains_key(names[i]));
                    }
                }
                let id = self.next_item_id;
                self.next_item_id = id + 1;
                names_insert(&mut self.item_str_to_id, String::from_str(item), id);
                self.item_id_to_str.push(String::from_str(item));
                proof {
                    let after = self@;
                    let entries = name_entries(self.item_str_to_id);
                    assert(after =~= names.push(item@));
                    assert forall|i: int| 0 <= i < after.len() implies entries.contains_key(
                        #[trigger] after[i],
                    ) && entries[after[i]] == i + 1 by {
                        if i < names.len() {
                            assert(after[i] == names[i]);
                            assert(names.contains(names[i]));
                        }
                    }
                    assert forall|name: Seq<char>| #[trigger]
                        entries.contains_key(name) implies after.contains(name) by {
                        if name == item@ {
                            assert(after[names.len() as int] == name);
                        } else {
                            let i = choose|i: int| 0 <= i < names.len() && names[i] == name;
                            assert(after[i] == name);
                        }
                    }
                    assert(after[id - 1] == item@);
                    assert(after.contains(item@));
                    let found = after.index_of(item@);
                    assert(after[found] == item@);
                    assert(entries[after[found]] == found + 1);
                }
                Item::with_id(id)
            },
        }
    }

    /// The string of the identifier `id`, which the table has given out.
    pub fn str_of(&self, id: Item) -> (name: &str)
        requires
            self.wf(),
            1 <= id.id <= self@.len(),
        ensures
            name@ == self@[id.id - 1],
    {
        self.item_id_to_str[id.as_index() - 1].as_str()
    }

    /// Gives the strings new identifiers, so that the identifiers rise as
    /// the strings do, and moves each frequency of `item_count` to the new
    /// identifier of its string.
    pub fn reorder_sorted(&mut self, item_count: &mut ItemCounter)
        requires
            old(self).wf(),
        ensures
            final(self).wf(),
            final(self)@.to_multiset() == old(self)@.to_multiset(),
            rising_names(final(self)@),
            final(item_count)@ == renumbered(old(item_count)@, old(self)@, final(self)@),
    {
        let ghost before = self@;
        let ghost counts = item_count@;
        let ghost entries_before = name_entries(self.item_str_to_id);
        proof {
            self.lemma_names_distinct();
        }
        sort_names(&mut self.item_id_to_str);
        let ghost after = self@;
        proof {
            lemma_same_names(before, after);
            lemma_sorted_distinct(after);
            assert forall|j: int| 0 <= j < after.len() implies entries_before[#[trigger] after[j]]
                == id_in(before, after[j]) by {
                assert(after.contains(after[j]));
                let at = before.index_of(after[j]);
                assert(before[at] == after[j]);
                assert(entries_before[before[at]] == at + 1);
            }
            assert forall|name: Seq<char>| #[trigger]
                entries_before.contains_key(name) <==> after.contains(name) by {
                if before.contains(name) {
                    let at = before.index_of(name);
                    assert(before[at] == name);
                }
            }
        }
        let mut sorted_counter = ItemCounter::new();
        let mut index: usize = 0;
        while index < self.item_id_to_str.len()
            invariant
                self@ == after,
                self.next_item_id == after.len() + 1,
                after.len() == before.len(),
                after.len() < u32::MAX,
                before.no_duplicates(),
                after.no_duplicates(),
                forall|name: Seq<char>| before.contains(name) <==> after.contains(name),
                index <= after.len(),
                item_count@ == counts,
                forall|name: Seq<char>| #[trigger]
                    name_entries(self.item_str_to_id).contains_key(name) <==> after.contains(name),
                forall|j: int|
                    0 <= j < index ==> name_entries(self.item_str_to_id)[#[trigger] after[j]] == j
                        + 1,
                forall|j: int|
                    index <= j < after.len() ==> name_entries(
                        self.item_str_to_id,
                    )[#[trigger] after[j]] == id_in(before, after[j]),
                sorted_counter@ == renumbered(counts, before, after.take(index as int)),
            decreases after.len() - index,
        {
            let new_id = Item::with_id((index + 1) as u32);
            let ghost name = after[index as int];
            proof {
                assert(self.item_id_to_str@[index as int]@ == name);
                assert(after.contains(name));
                assert(before.contains(name));
                let at = before.index_of(name);
                assert(before[at] == name);
            }
            let old_id = match names_get(
                &self.item_str_to_id,
                self.item_id_to_str[index].as_str(),
            ) {
                Some(id) => id,
                None => {
                    proof {
                        assert(false);
                    }
                    0
                },
            };
            let count = item_count.get(&Item::with_id(old_id));
            let ghost counter_before = sorted_counter@;
            sorted_counter.set(&new_id, count);
            let ghost entries_mid = name_entries(self.item_str_to_id);
            names_insert(&mut self.item_str_to_id, self.item_id_to_str[index].clone(), new_id.id);
            proof {
                let entries = name_entries(self.item_str_to_id);
                assert forall|j: int| 0 <= j < index + 1 implies entries[#[trigger] after[j]] == j
                    + 1 by {
                    if j < index {
                        assert(after[j] != name);
                        assert(entries_mid[after[j]] == j + 1);
                    }
                }
                assert forall|j: int| index + 1 <= j < after.len() implies entries[#[trigger] after[j]]
                    == id_in(before, after[j]) by {
                    assert(after[j] != name);
                    assert(entries_mid[after[j]] == id_in(before, after[j]));
                }
                assert forall|other: Seq<char>| #[trigger]
                    entries.contains_key(other) <==> after.contains(other) by {
                    assert(entries_mid.contains_key(other) <==> after.contains(other));
                }
                let upto = after.take(index as int);
                let next = after.take(index + 1);
                assert(next.len() == index + 1);
                assert(sorted_counter@ =~= renumbered(counts, before, next)) by {
                    let target = renumbered(counts, before, next);
                    assert(sorted_counter@.len() == target.len());
                    assert forall|k: int| 0 <= k < target.len() implies sorted_counter@[k]
                        == target[k] by {
                        if 0 < k && k <= index {
                            assert(next[k - 1] == upto[k - 1]);
                            assert(counter_before[k] == renumbered(counts, before, upto)[k]);
                        }
                    }
                }
            }
            index += 1;
        }
        proof {
            assert(after.take(after.len() as int) =~= after);
        }
        item_count.take(sorted_counter);
    }
}

/// Two lists of names of which the one is the other in another order, the
/// other without a name twice, have the same length and the same names, and
/// the one has no name twice either.
proof fn lemma_same_names(before: Seq<Seq<char>>, after: Seq<Seq<char>>)
    requires
        before.no_duplicates(),
        after.to_multiset() == before.to_multiset(),
    ensures
        after.no_duplicates(),
        after.len() == before.len(),
        forall|name: Seq<char>| before.contains(name) <==> after.contains(name),
{
    broadcast use vstd::seq_lib::group_to_multiset_ensures;

    vstd::seq_lib::to_multiset_len(before);
    vstd::seq_lib::to_multiset_len(after);
    before.lemma_multiset_has_no_duplicates();
    after.lemma_multiset_has_no_duplicates_conv();
    assert forall|name: Seq<char>| before.contains(name) <==> after.contains(name) by {
        assert(before.contains(name) <==> before.to_multiset().count(name) > 0);
        assert(after.contains(name) <==> after.to_multiset().count(name) > 0);
    }
}

/// In a table whose strings rise, a list of identifiers that rises names
/// strings that rise.
pub proof fn lemma_names_follow_ids(names: Seq<Seq<char>>, items: Seq<Item>)
    requires
        rising_names(names),
        crate::vec_sets::ascending(items),
        forall|k: int| 0 <= k < items.len() ==> 1 <= (#[trigger] items[k]).id <= names.len(),
    ensures
        rising_names(Seq::new(items.len(), |k: int| names[items[k].id - 1])),
{
}

} // verus!
