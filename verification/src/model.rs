//! The mathematical model of a problem and of what solves it.
use crate::bits::is_set;
use crate::types::Color;
use vstd::prelude::*;

verus! {

/// One option: the items it touches, and the colors it gives some of them.
#[verifier::ext_equal]
pub struct Row {
    /// Bit `i` says whether the option touches item `i`.
    pub items: Seq<bool>,
    /// The color of each colored item of the option.
    pub colors: Map<int, Color>,
}

impl Row {
    /// Whether the option touches item `i`.
    pub open spec fn touches(self, i: int) -> bool {
        is_set(self.items, i)
    }

    /// The color that the option gives item `i`, if any.
    pub open spec fn color(self, i: int) -> Option<Color> {
        if self.colors.contains_key(i) {
            Some(self.colors[i])
        } else {
            None
        }
    }

    /// The option has a bit for each of `num_items` items, and colors only
    /// items that it touches.
    pub open spec fn wf(self, num_items: nat) -> bool {
        &&& self.items.len() == num_items
        &&& forall|i: int| #[trigger] self.colors.contains_key(i) ==> self.touches(i)
    }
}

/// An exact cover problem: items `0..num_primary` are primary, items
/// `num_primary..num_items` are secondary, and `options` are the rows to
/// choose from.
#[verifier::ext_equal]
pub struct Problem {
    pub num_items: nat,
    pub num_primary: nat,
    pub options: Seq<Row>,
}

impl Problem {
    /// Whether `o` is the number of an option.
    pub open spec fn is_option(self, o: int) -> bool {
        0 <= o < self.options.len()
    }

    /// Whether `i` is the number of a primary item.
    pub open spec fn is_primary(self, i: int) -> bool {
        0 <= i < self.num_primary
    }

    /// Whether `o` is an option that touches item `i`.
    pub open spec fn touches(self, o: int, i: int) -> bool {
        self.is_option(o) && self.options[o].touches(i)
    }

    /// Bit `o` says whether option `o` touches item `i`.
    pub open spec fn column(self, i: int) -> Seq<bool> {
        Seq::new(self.options.len(), |o: int| self.touches(o, i))
    }

    /// The color that option `o` gives item `i`, if any.
    pub open spec fn color(self, o: int, i: int) -> Option<Color> {
        self.options[o].color(i)
    }

    /// The primary items are among the items, and every option is well
    /// formed.
    pub open spec fn wf(self) -> bool {
        &&& self.num_primary <= self.num_items
        &&& forall|o: int| self.is_option(o) ==> (#[trigger] self.options[o]).wf(self.num_items)
    }

    /// No option gives a primary item a color.
    pub open spec fn primary_uncolored(self) -> bool {
        forall|o: int, i: int|
            self.is_option(o) && self.is_primary(i) ==> (#[trigger] self.color(o, i)) is None
    }

    /// Every entry of `chosen` is the number of an option.
    pub open spec fn are_options(self, chosen: Seq<int>) -> bool {
        forall|j: int| 0 <= j < chosen.len() ==> self.is_option(#[trigger] chosen[j])
    }

    /// Whether option `o` touches a primary item.
    pub open spec fn touches_primary(self, o: int) -> bool {
        exists|i: int| 0 <= i < self.num_primary && #[trigger] self.touches(o, i)
    }

    /// Every entry of `chosen` touches a primary item.
    pub open spec fn all_touch_primary(self, chosen: Seq<int>) -> bool {
        forall|j: int| 0 <= j < chosen.len() ==> self.touches_primary(#[trigger] chosen[j])
    }

    /// Every entry of `chosen` is an option, and every primary item is
    /// touched by some entry.
    pub open spec fn is_cover(self, chosen: Seq<int>) -> bool {
        &&& self.are_options(chosen)
        &&& forall|i: int| #[trigger]
            self.is_primary(i) ==> exists|j: int|
                0 <= j < chosen.len() && self.touches(#[trigger] chosen[j], i)
    }

    /// No primary item is touched by two entries of `chosen`.
    pub open spec fn is_exact(self, chosen: Seq<int>) -> bool {
        forall|i: int, j: int, k: int|
            self.is_primary(i) && 0 <= j < k < chosen.len() ==> !(self.touches(
                #[trigger] chosen[j],
                i,
            ) && #[trigger] self.touches(chosen[k], i))
    }

    /// Every primary item is touched by exactly one entry of `chosen`.
    pub open spec fn is_exact_cover(self, chosen: Seq<int>) -> bool {
        self.is_cover(chosen) && self.is_exact(chosen)
    }

    /// Wherever two entries of `chosen` touch the same secondary item, both
    /// give it a color, and the same one. So a secondary item that some
    /// entry leaves uncolored is touched by no other entry.
    pub open spec fn is_color_consistent(self, chosen: Seq<int>) -> bool {
        forall|i: int, j: int, k: int|
            !self.is_primary(i) && 0 <= j < chosen.len() && 0 <= k < chosen.len() && j != k
                && self.touches(chosen[j], i) && self.touches(chosen[k], i) ==> {
                &&& (#[trigger] self.color(chosen[j], i)) is Some
                &&& self.color(chosen[j], i) == #[trigger] self.color(chosen[k], i)
            }
    }

    /// Whether `chosen` touches every primary item and colors the secondary
    /// items consistently.
    pub open spec fn covers_consistently(self, chosen: Seq<int>) -> bool {
        self.is_cover(chosen) && self.is_color_consistent(chosen)
    }

    /// Whether `chosen` solves the problem.
    pub open spec fn is_solution(self, chosen: Seq<int>) -> bool {
        self.is_exact_cover(chosen) && self.is_color_consistent(chosen)
    }
}

} // verus!
