//! Index types. Items, options and colors are all numbered from zero; a type
//! for each keeps the three kinds of number apart.
use vstd::prelude::*;

verus! {

/// The number of an option (row) in a matrix, in order of insertion.
#[derive(Debug, Clone, Copy, PartialEq, Eq, Hash, PartialOrd, Ord, Structural)]
pub struct OptionId(pub usize);

impl OptionId {
    /// Creates a new `OptionId`.
    #[must_use]
    pub fn new(id: usize) -> (r: Self)
        ensures
            r == OptionId(id),
    {
        OptionId(id)
    }

    /// Returns the index of the option in the matrix.
    #[must_use]
    pub fn index(self) -> (i: usize)
        ensures
            i == self.0,
    {
        self.0
    }
}

/// The number of an item (column) in a matrix. Primary items come first.
#[derive(Debug, Clone, Copy, PartialEq, Eq, Hash, PartialOrd, Ord, Structural)]
pub struct ItemId(pub usize);

impl ItemId {
    /// Creates a new `ItemId`.
    #[must_use]
    pub fn new(id: usize) -> (r: Self)
        ensures
            r == ItemId(id),
    {
        ItemId(id)
    }

    /// Returns the index of the item in the matrix.
    #[must_use]
    pub fn index(self) -> (i: usize)
        ensures
            i == self.0,
    {
        self.0
    }
}

/// Color of an item. Two colors are either equal or not; they mean nothing
/// else.
#[derive(Debug, Clone, Copy, PartialEq, Eq, Hash, PartialOrd, Ord, Structural)]
pub struct Color(pub usize);

impl Color {
    /// Creates a new `Color`.
    #[must_use]
    pub fn new(id: usize) -> (r: Self)
        ensures
            r == Color(id),
    {
        Color(id)
    }
}

/// An item as it occurs in an option: with a color or without one.
#[derive(Clone, Copy)]
pub struct ColoredItem {
    item_id: ItemId,
    color: Option<Color>,
}

impl ColoredItem {
    /// The item that `self` names.
    pub closed spec fn spec_item(&self) -> ItemId {
        self.item_id
    }

    /// The color that `self` gives the item, if any.
    pub closed spec fn spec_color(&self) -> Option<Color> {
        self.color
    }

    /// Creates a new `ColoredItem` with no color.
    #[must_use]
    pub fn new(item_id: ItemId) -> (r: Self)
        ensures
            r.spec_item() == item_id,
            r.spec_color() is None,
    {
        ColoredItem { item_id, color: None }
    }

    /// Returns the item.
    #[must_use]
    #[verifier::when_used_as_spec(spec_item)]
    pub fn item(&self) -> (r: ItemId)
        ensures
            r == self.spec_item(),
    {
        self.item_id
    }

    /// Returns the color of this item, if any.
    #[must_use]
    #[verifier::when_used_as_spec(spec_color)]
    pub fn color(&self) -> (r: Option<Color>)
        ensures
            r == self.spec_color(),
    {
        self.color
    }

    /// Creates a new `ColoredItem` with the given color.
    #[must_use]
    pub fn with_color(item_id: ItemId, color: Color) -> (r: Self)
        ensures
            r.spec_item() == item_id,
            r.spec_color() == Some(color),
    {
        ColoredItem { item_id, color: Some(color) }
    }
}

} // verus!
