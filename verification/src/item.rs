use vstd::prelude::*;

verus! {

/// An item of the vocabulary, known by a small integer. The identifier 0 is
/// kept for the null item, which marks the root of a tree.
#[derive(Copy, Clone, Hash, PartialEq, Eq, Structural, PartialOrd, Ord, Debug)]
pub struct Item {
    pub id: u32,
}

impl Item {
    /// The null item.
    pub fn null() -> (item: Item)
        ensures
            item.id == 0,
    {
        Item { id: 0 }
    }

    /// The item with the given identifier.
    pub fn with_id(id: u32) -> (item: Item)
        ensures
            item.id == id,
    {
        Item { id }
    }

    /// The identifier as a position in a dense table.
    pub fn as_index(&self) -> (index: usize)
        ensures
            index == self.id,
    {
        self.id as usize
    }

    /// Whether this is the null item.
    pub fn is_null(&self) -> (null: bool)
        ensures
            null == (self.id == 0),
    {
        self.id == 0
    }
}

} // verus!
