//! Ready-made problems.
use crate::matrix::{colors_of, entries_of, lemma_colors_of_keys, row_of, Entry, Matrix};
use crate::model::Problem;
use crate::types::{Color, ColoredItem, ItemId};
use vstd::prelude::*;

verus! {

/// An entry for item `i` without a color.
pub open spec fn plain(i: int) -> Entry {
    (i, None)
}

/// An entry for item `i` with color `c`.
pub open spec fn colored(i: int, c: usize) -> Entry {
    (i, Some(Color(c)))
}

/// The options of the toy problem, as entries.
pub open spec fn toy_entries() -> Seq<Seq<Entry>> {
    seq![
        seq![plain(0), plain(1), plain(3), colored(4, 0)],
        seq![plain(0), plain(2), colored(3, 0), plain(4)],
        seq![plain(0), colored(3, 1)],
        seq![plain(1), colored(3, 0)],
        seq![plain(2), colored(4, 1)],
    ]
}

/// The toy problem of Knuth, *The Art of Computer Programming*, 7.2.2.1,
/// (49). Its items are `p q r` (primary, items 0 to 2) and `x y` (secondary,
/// items 3 and 4); its colors are `A` (0) and `B` (1); its options are
/// `p q x y:A`, `p r x:A y`, `p x:B`, `q x:A` and `r y:B`.
pub open spec fn toy_problem() -> Problem {
    Problem {
        num_items: 5,
        num_primary: 3,
        options: toy_entries().map_values(|entries: Seq<Entry>| row_of(entries, 5)),
    }
}

/// No option of the toy problem gives a primary item a color.
pub proof fn lemma_toy_primary_uncolored()
    ensures
        toy_problem().primary_uncolored(),
{
    let p = toy_problem();
    let e = toy_entries();
    assert forall|o: int, i: int| p.is_option(o) && p.is_primary(i) implies (#[trigger] p.color(
        o,
        i,
    )) is None by {
        assert(p.options[o] == row_of(e[o], 5));
        if colors_of(e[o]).contains_key(i) {
            lemma_colors_of_keys(e[o], i);
        }
    }
}

/// Builds the matrix of the toy problem. The meaning of its option `k` is
/// `k + 1`.
pub fn toy() -> (m: Matrix<usize>)
    ensures
        m.wf(),
        m@ == toy_problem(),
        m@.primary_uncolored(),
        m.meanings() == seq![1usize, 2, 3, 4, 5],
{
    let p = ColoredItem::new(ItemId::new(0));
    let q = ColoredItem::new(ItemId::new(1));
    let r = ColoredItem::new(ItemId::new(2));
    let x = ColoredItem::new(ItemId::new(3));
    let y = ColoredItem::new(ItemId::new(4));
    let x_a = ColoredItem::with_color(ItemId::new(3), Color::new(0));
    let x_b = ColoredItem::with_color(ItemId::new(3), Color::new(1));
    let y_a = ColoredItem::with_color(ItemId::new(4), Color::new(0));
    let y_b = ColoredItem::with_color(ItemId::new(4), Color::new(1));
    let mut matrix: Matrix<usize> = Matrix::new(3, 2);
    let first = vec![p, q, x, y_a];
    assert(entries_of(first@) =~= toy_entries()[0]);
    matrix.add_option(1, first.as_slice());
    let second = vec![p, r, x_a, y];
    assert(entries_of(second@) =~= toy_entries()[1]);
    matrix.add_option(2, second.as_slice());
    let third = vec![p, x_b];
    assert(entries_of(third@) =~= toy_entries()[2]);
    matrix.add_option(3, third.as_slice());
    let fourth = vec![q, x_a];
    assert(entries_of(fourth@) =~= toy_entries()[3]);
    matrix.add_option(4, fourth.as_slice());
    let fifth = vec![r, y_b];
    assert(entries_of(fifth@) =~= toy_entries()[4]);
    matrix.add_option(5, fifth.as_slice());
    proof {
        assert(matrix@.options =~= toy_problem().options);
        assert(matrix.meanings() =~= seq![1usize, 2, 3, 4, 5]);
        assert(matrix@ =~= toy_problem());
        lemma_toy_primary_uncolored();
    }
    matrix
}

} // verus!
