//! The compiled form of a problem: which option touches which item, with
//! which color.
use crate::bits::{
    as_ints, bits_of, has_bit, insert_bit, is_set, list_bits, new_bits, positions, positions_upto,
    tidy,
};
use crate::builder::{Builder, Declaration};
use crate::completeness::{holds_all, lemma_all_solutions_hold_all, same_options};
use crate::model::{Problem, Row};
use crate::search::all_solutions;
use crate::solver::{all_sound, solution_views, Solution, Solver};
use crate::soundness::is_sound;
use crate::types::{Color, ColoredItem, ItemId, OptionId};
use crate::unique::Unique;
use fixedbitset::FixedBitSet;
use std::collections::HashMap;
use vstd::prelude::*;

verus! {

broadcast use vstd::std_specs::hash::group_hash_axioms;

/// A map keyed by `usize`, read as a map keyed by `int`.
pub open spec fn int_keys<V>(m: Map<usize, V>) -> Map<int, V> {
    Map::new(
        |i: int| 0 <= i <= usize::MAX && m.contains_key(i as usize),
        |i: int| m[i as usize],
    )
}

/// An item as an option names it: its index, and the color that the option
/// gives it, if any.
pub type Entry = (int, Option<Color>);

/// What each of `items` says, as plain values.
pub open spec fn entries_of(items: Seq<ColoredItem>) -> Seq<Entry> {
    items.map_values(|c: ColoredItem| (c.item().0 as int, c.color()))
}

/// Whether one of the first `k` of `entries` names item `i`.
pub open spec fn names_item(entries: Seq<Entry>, k: int, i: int) -> bool {
    exists|j: int| 0 <= j < k && (#[trigger] entries[j]).0 == i
}

/// The colors that `entries` give: each colored entry gives its item its
/// color, and where two entries color the same item the later one counts.
pub open spec fn colors_of(entries: Seq<Entry>) -> Map<int, Color>
    decreases entries.len(),
{
    if entries.len() == 0 {
        Map::empty()
    } else {
        let before = colors_of(entries.drop_last());
        match entries.last().1 {
            Some(c) => before.insert(entries.last().0, c),
            None => before,
        }
    }
}

/// An item has a color in `colors_of(entries)` only if an entry gives it one.
pub proof fn lemma_colors_of_keys(entries: Seq<Entry>, i: int)
    requires
        colors_of(entries).contains_key(i),
    ensures
        exists|k: int| 0 <= k < entries.len() && (#[trigger] entries[k]).0 == i && entries[k].1 is Some,
    decreases entries.len(),
{
    if entries.len() > 0 {
        let last = entries.last();
        if last.1 is Some && last.0 == i {
            assert(entries[entries.len() - 1] == last);
        } else {
            lemma_colors_of_keys(entries.drop_last(), i);
            let k = choose|k: int|
                0 <= k < entries.drop_last().len() && (#[trigger] entries.drop_last()[k]).0 == i
                    && entries.drop_last()[k].1 is Some;
            assert(entries[k] == entries.drop_last()[k]);
        }
    }
}

/// The option that `entries` describe, in a problem of `num_items` items: it
/// touches the items that they name, with the colors that they give.
pub open spec fn row_of(entries: Seq<Entry>, num_items: nat) -> Row {
    Row {
        items: Seq::new(num_items, |i: int| names_item(entries, entries.len() as int, i)),
        colors: colors_of(entries),
    }
}

/// The item of each entry of `list`.
pub open spec fn item_indices(list: Seq<(ItemId, Option<Color>)>) -> Seq<int> {
    list.map_values(|e: (ItemId, Option<Color>)| e.0.0 as int)
}

/// The options of `p` that touch item `i`, in ascending order.
pub open spec fn touching(p: Problem, i: int) -> Seq<int> {
    positions(p.column(i))
}

/// One option of a matrix.
#[derive(Debug)]
pub struct OptionData<T> {
    /// The number of the option in its matrix.
    pub option_id: OptionId,
    /// The items, primary and secondary, that the option touches.
    pub items: FixedBitSet,
    /// The color of each colored item of the option, by the item's index.
    pub colors: HashMap<usize, Color>,
    /// What the option stands for to the caller.
    pub meaning: T,
}

impl<T> View for OptionData<T> {
    type V = Row;

    open spec fn view(&self) -> Row {
        Row { items: bits_of(self.items), colors: int_keys(self.colors@) }
    }
}

/// An exact cover problem with colors, ready to be solved.
///
/// Items are numbered from zero, the primary ones first. Options are numbered
/// from zero in the order in which they were added.
#[derive(Debug)]
pub struct Matrix<T> {
    num_items: usize,
    num_primary_items: usize,
    options: Vec<OptionData<T>>,
}

impl<T> View for Matrix<T> {
    type V = Problem;

    open spec fn view(&self) -> Problem {
        Problem {
            num_items: self.spec_num_items() as nat,
            num_primary: self.spec_num_primary_items() as nat,
            options: self.rows().map_values(|r: OptionData<T>| r@),
        }
    }
}

impl<T> Matrix<T> {
    /// The options, in order of insertion.
    pub closed spec fn rows(&self) -> Seq<OptionData<T>> {
        self.options@
    }

    /// The number of options.
    pub closed spec fn spec_num_options(&self) -> usize {
        self.options.len()
    }

    /// The number of items, primary and secondary.
    pub closed spec fn spec_num_items(&self) -> usize {
        self.num_items
    }

    /// The number of primary items.
    pub closed spec fn spec_num_primary_items(&self) -> usize {
        self.num_primary_items
    }

    /// The meaning of each option, in order of insertion.
    pub open spec fn meanings(&self) -> Seq<T> {
        self.rows().map_values(|r: OptionData<T>| r.meaning)
    }

    /// The problem is well formed, every option knows its own number, and
    /// the bit set of every option is tidy.
    pub open spec fn wf(&self) -> bool {
        &&& self@.wf()
        &&& self.spec_num_options() == self.rows().len()
        &&& forall|o: int|
            0 <= o < self.rows().len() ==> (#[trigger] self.rows()[o]).option_id.0 == o && tidy(
                self.rows()[o].items,
            )
    }

    /// Returns the number of options (rows) in the matrix.
    #[must_use]
    #[verifier::when_used_as_spec(spec_num_options)]
    pub fn num_options(&self) -> (n: usize)
        ensures
            n == self.spec_num_options(),
            n == self@.options.len(),
    {
        self.options.len()
    }

    /// Returns the option with the given number.
    #[must_use]
    pub fn get_option(&self, n: OptionId) -> (r: &OptionData<T>)
        requires
            n.0 < self@.options.len(),
        ensures
            *r == self.rows()[n.0 as int],
    {
        &self.options[n.index()]
    }

    /// Returns the number of items (columns) in the matrix.
    #[must_use]
    #[verifier::when_used_as_spec(spec_num_items)]
    pub fn num_items(&self) -> (n: usize)
        ensures
            n == self.spec_num_items(),
    {
        self.num_items
    }

    /// Returns the number of primary items (columns) in the matrix. These are
    /// the items that every solution must contain.
    #[must_use]
    #[verifier::when_used_as_spec(spec_num_primary_items)]
    pub fn num_primary_items(&self) -> (n: usize)
        ensures
            n == self.spec_num_primary_items(),
    {
        self.num_primary_items
    }

    /// Finds all solutions of the matrix, in the order of the search: every
    /// solution of which each option touches a primary item is among them.
    /// Each of them touches every primary item and colors the secondary
    /// items consistently. If no option gives a primary item a color, as in
    /// every matrix that a `Builder` makes, each of them touches every
    /// primary item exactly once.
    pub fn solve_all(&mut self) -> (results: Vec<Solution>)
        requires
            old(self).wf(),
        ensures
            *final(self) == *old(self),
            solution_views(results@) == all_solutions(old(self)@),
            holds_all(old(self)@, solution_views(results@)),
            all_sound(old(self)@, solution_views(results@)),
    {
        let mut solver = Solver::new(self);
        solver.solve_all()
    }

    /// Searches for up to two solutions. Returns `NoSolution` if there is
    /// none, `One(s)` if `s` is the only one, and `Ambiguous(s1, s2)` if
    /// there are more, where `s2` is the first that the search finds and
    /// `s1` the second.
    pub fn solve_unique(&mut self) -> (r: Unique<Solution>)
        requires
            old(self).wf(),
        ensures
            *final(self) == *old(self),
            r is NoSolution ==> holds_all(old(self)@, Seq::empty()),
            r matches Unique::One(s) ==> holds_all(old(self)@, seq![s@]),
            match r {
                Unique::NoSolution => all_solutions(old(self)@).len() == 0,
                Unique::One(s) => all_solutions(old(self)@).len() == 1 && s@ == all_solutions(
                    old(self)@,
                )[0],
                Unique::Ambiguous(s1, s2) => all_solutions(old(self)@).len() >= 2 && s1@
                    == all_solutions(old(self)@)[1] && s2@ == all_solutions(old(self)@)[0],
            },
            match r {
                Unique::NoSolution => true,
                Unique::One(s) => is_sound(old(self)@, s@),
                Unique::Ambiguous(s1, s2) => is_sound(old(self)@, s1@) && is_sound(
                    old(self)@,
                    s2@,
                ),
            },
            r matches Unique::Ambiguous(s1, s2) ==> !same_options(s1@, s2@),
    {
        proof {
            lemma_all_solutions_hold_all(self@);
        }
        let mut solver = Solver::new(self);
        let r = solver.solve_unique();
        proof {
            let all = all_solutions(self@);
            if r is NoSolution {
                assert(all =~= Seq::empty());
            }
            if r is One {
                assert(all =~= seq![r->One_0@]);
            }
        }
        r
    }

    /// Returns the first solution that the search finds, or `None` if there
    /// is no solution.
    pub fn solve_once(&mut self) -> (r: Option<Solution>)
        requires
            old(self).wf(),
        ensures
            *final(self) == *old(self),
            match r {
                None => all_solutions(old(self)@).len() == 0,
                Some(s) => all_solutions(old(self)@).len() > 0 && s@ == all_solutions(
                    old(self)@,
                )[0],
            },
            r matches Some(s) ==> is_sound(old(self)@, s@),
            r is None ==> holds_all(old(self)@, Seq::empty()),
    {
        proof {
            lemma_all_solutions_hold_all(self@);
        }
        let mut solver = Solver::new(self);
        let r = solver.solve_once();
        proof {
            if r is None {
                assert(all_solutions(self@) =~= Seq::empty());
            }
        }
        r
    }

    /// Creates a `Builder` to declare a matrix by the names of its items.
    #[must_use]
    pub fn builder() -> (b: Builder<T>)
        ensures
            b@ == (Declaration {
                primary: Seq::empty(),
                secondary: Seq::empty(),
                options: Seq::empty(),
            }),
            b.meanings() == Seq::<T>::empty(),
    {
        Builder::default()
    }

    /// Creates a matrix with the given numbers of primary and secondary
    /// items and no option. Most callers want a `Builder` instead.
    #[must_use]
    pub fn new(num_primary_items: usize, num_secondary_items: usize) -> (m: Self)
        requires
            num_primary_items + num_secondary_items <= usize::MAX,
        ensures
            m.wf(),
            m@ == (Problem {
                num_items: (num_primary_items + num_secondary_items) as nat,
                num_primary: num_primary_items as nat,
                options: Seq::empty(),
            }),
            m.meanings() == Seq::<T>::empty(),
    {
        let num_items = num_primary_items + num_secondary_items;
        let m = Matrix { num_items, num_primary_items, options: Vec::new() };
        assert(m@.options =~= Seq::empty());
        assert(m.meanings() =~= Seq::<T>::empty());
        m
    }

    /// Adds an option (row) that touches the given items, and returns its
    /// number. Every item must be an item of the matrix.
    pub fn add_option(&mut self, meaning: T, items: &[ColoredItem]) -> (option_id: usize)
        requires
            old(self).wf(),
            forall|k: int|
                0 <= k < items@.len() ==> (#[trigger] items@[k]).item().0 < old(
                    self,
                ).spec_num_items(),
        ensures
            final(self).wf(),
            option_id == old(self)@.options.len(),
            final(self)@ == (Problem {
                options: old(self)@.options.push(
                    row_of(entries_of(items@), old(self)@.num_items),
                ),
                ..old(self)@
            }),
            final(self).meanings() == old(self).meanings().push(meaning),
    {
        let n = self.num_items;
        let ghost entries = entries_of(items@);
        let mut items_bitset = new_bits(n);
        let mut k: usize = 0;
        while k < items.len()
            invariant
                k <= items@.len(),
                entries == entries_of(items@),
                forall|j: int| 0 <= j < items@.len() ==> (#[trigger] items@[j]).item().0 < n,
                tidy(items_bitset),
                bits_of(items_bitset) =~= Seq::new(
                    n as nat,
                    |i: int| names_item(entries, k as int, i),
                ),
            decreases items@.len() - k,
        {
            let ghost before = bits_of(items_bitset);
            insert_bit(&mut items_bitset, items[k].item().index());
            proof {
                let idx = entries[k as int].0;
                assert(idx == items@[k as int].item().0);
                assert forall|i: int| 0 <= i < n implies before.update(idx, true)[i] == names_item(
                    entries,
                    k + 1,
                    i,
                ) by {
                    if names_item(entries, k as int, i) {
                        let j = choose|j: int| 0 <= j < k && (#[trigger] entries[j]).0 == i;
                        assert(0 <= j < k + 1 && entries[j].0 == i);
                    }
                    if i == idx {
                        assert(0 <= k < k + 1 && entries[k as int].0 == i);
                    }
                }
            }
            k += 1;
        }
        let mut colors: HashMap<usize, Color> = HashMap::new();
        assert(int_keys(colors@) =~= colors_of(entries.take(0)));
        let mut k: usize = 0;
        while k < items.len()
            invariant
                k <= items@.len(),
                entries == entries_of(items@),
                forall|j: int|
                    0 <= j < entries.len() ==> is_set(
                        bits_of(items_bitset),
                        (#[trigger] entries[j]).0,
                    ),
                int_keys(colors@) == colors_of(entries.take(k as int)),
                forall|i: int| #[trigger]
                    int_keys(colors@).contains_key(i) ==> is_set(bits_of(items_bitset), i),
            decreases items@.len() - k,
        {
            let ghost before = colors@;
            assert(entries.take(k + 1).drop_last() =~= entries.take(k as int));
            assert(entries[k as int] == (items@[k as int].item().0 as int, items@[k as int].color()));
            if let Some(color) = items[k].color() {
                colors.insert(items[k].item().index(), color);
                assert(int_keys(colors@) =~= int_keys(before).insert(entries[k as int].0, color));
            }
            k += 1;
        }
        assert(entries.take(entries.len() as int) =~= entries);
        let option_id = self.options.len();
        let ghost old_rows = self.rows();
        let row = OptionData { option_id: OptionId::new(option_id), items: items_bitset, colors, meaning };
        assert(row@ == row_of(entries, n as nat));
        self.options.push(row);
        proof {
            assert(self.rows() == old_rows.push(row));
            assert(self@.options =~= old(self)@.options.push(row_of(entries, n as nat)));
            assert(self.meanings() =~= old(self).meanings().push(meaning));
            assert forall|o: int| self@.is_option(o) implies (#[trigger] self@.options[o]).wf(
                self@.num_items,
            ) by {
                if o < old_rows.len() {
                    assert(self@.options[o] == old(self)@.options[o]);
                    assert(old(self)@.is_option(o));
                } else {
                    assert(self@.options[o] == row@);
                }
            }
            assert forall|o: int| 0 <= o < self.rows().len() implies (#[trigger] self.rows()[o]).option_id.0
                == o && tidy(self.rows()[o].items) by {
                if o < old_rows.len() {
                    assert(self.rows()[o] == old(self).rows()[o]);
                }
            }
        }
        option_id
    }

    /// Returns the meaning that the given option was added with.
    #[must_use]
    pub fn meaning(&self, option_number: usize) -> (r: &T)
        requires
            option_number < self@.options.len(),
        ensures
            *r == self.meanings()[option_number as int],
    {
        &self.options[option_number].meaning
    }

    /// Returns the options that touch the given item, in order of insertion.
    /// The item must be an item of the matrix.
    pub fn options_for_item(&self, item: ItemId) -> (r: Vec<&OptionData<T>>)
        requires
            item.0 < self@.num_items,
        ensures
            r@.len() == touching(self@, item.0 as int).len(),
            forall|k: int|
                0 <= k < r@.len() ==> *(#[trigger] r@[k]) == self.rows()[touching(
                    self@,
                    item.0 as int,
                )[k]],
    {
        let ghost column = self@.column(item.0 as int);
        let mut found: Vec<&OptionData<T>> = Vec::new();
        let mut o: usize = 0;
        while o < self.options.len()
            invariant
                o <= self.rows().len(),
                self.rows() == self.options@,
                column == self@.column(item.0 as int),
                found@.len() == positions_upto(column, o as nat).len(),
                forall|k: int|
                    0 <= k < found@.len() ==> *(#[trigger] found@[k]) == self.rows()[positions_upto(
                        column,
                        o as nat,
                    )[k]],
            decreases self.rows().len() - o,
        {
            let option = &self.options[o];
            if has_bit(&option.items, item.index()) {
                found.push(option);
            }
            o += 1;
        }
        found
    }

    /// Returns the items that the given option touches, in ascending order,
    /// each with the color that the option gives it.
    pub fn items_for_option(&self, option: OptionId) -> (r: Vec<(ItemId, Option<Color>)>)
        requires
            self.wf(),
            option.0 < self@.options.len(),
        ensures
            item_indices(r@) == positions(self@.options[option.0 as int].items),
            forall|k: int|
                0 <= k < r@.len() ==> (#[trigger] r@[k]).1 == self@.color(
                    option.0 as int,
                    r@[k].0.0 as int,
                ),
    {
        let opt = &self.options[option.index()];
        let list = list_bits(&opt.items);
        let mut r: Vec<(ItemId, Option<Color>)> = Vec::new();
        let mut k: usize = 0;
        while k < list.len()
            invariant
                k <= list@.len(),
                r@.len() == k,
                *opt == self.rows()[option.0 as int],
                option.0 < self.rows().len(),
                forall|j: int| 0 <= j < k ==> (#[trigger] r@[j]).0.0 == list@[j],
                forall|j: int|
                    0 <= j < k ==> (#[trigger] r@[j]).1 == self@.color(
                        option.0 as int,
                        r@[j].0.0 as int,
                    ),
            decreases list@.len() - k,
        {
            let item = list[k];
            let color = match opt.colors.get(&item) {
                Some(c) => Some(*c),
                None => None,
            };
            r.push((ItemId::new(item), color));
            k += 1;
        }
        assert(item_indices(r@) =~= as_ints(list@));
        r
    }
}

} // verus!
