//! The search engine: a depth-first search for the solutions of a matrix.
use crate::bits::{
    as_ints, bits_of, copy_bits, count_set, full_bits, has_bit, is_set, lemma_count_set_bound,
    lemma_positions_gap, lemma_positions_upto, lemma_skip_clear, list_bits, positions,
    positions_upto, reached, set_bit, tidy,
};
use crate::completeness::{
    holds_all, lemma_all_solutions_hold_all, lemma_solutions_differ, same_options,
};
use crate::matrix::{int_keys, item_indices, touching, Matrix};
use crate::model::Problem;
use crate::search::{
    all_solutions, branch_nodes, branch_solutions, candidates, commit, cover, fixes, is_next_item,
    leads_below, lemma_next_item_unique, live_column, next_item, nodes_from, option_count, purify,
    solutions_from, spares, SearchState,
};
use crate::soundness::{is_sound, lemma_search_is_sound};
use crate::types::{Color, ItemId, OptionId};
use crate::unique::Unique;
use fixedbitset::FixedBitSet;
use std::collections::HashMap;
use vstd::prelude::*;

verus! {

broadcast use vstd::std_specs::hash::group_hash_axioms;

/// A limit on the number of solutions to return.
#[derive(Debug, Clone, Copy, PartialEq, Eq)]
pub enum Limit {
    /// Stop as soon as this many solutions are found. A search that finds a
    /// solution reports it before it looks at the limit, so `Max(0)` stops at
    /// the first solution, as `Max(1)` does.
    Max(usize),
    /// Return all solutions.
    All,
}

impl Limit {
    /// Returns true if `len` solutions reach the limit.
    #[must_use]
    pub fn reached(&self, len: usize) -> (r: bool)
        ensures
            r == match *self {
                Limit::Max(n) => len >= n,
                Limit::All => false,
            },
    {
        match self {
            Limit::Max(n) => len >= *n,
            Limit::All => false,
        }
    }
}

/// The option numbers in `ids`.
pub open spec fn option_indices(ids: Seq<OptionId>) -> Seq<int> {
    ids.map_values(|o: OptionId| o.0 as int)
}

/// A solution to an exact cover problem: the options chosen, in the order in
/// which the search chose them.
#[derive(Debug, Clone, PartialEq, Eq)]
pub struct Solution {
    option_ids: Vec<OptionId>,
}

impl View for Solution {
    type V = Seq<int>;

    closed spec fn view(&self) -> Seq<int> {
        option_indices(self.option_ids@)
    }
}

/// The meanings of the options of `solution`, in its order, where option
/// `o` has the meaning `meanings[o]`.
pub open spec fn payloads<T>(meanings: Seq<T>, solution: Seq<int>) -> Seq<T> {
    solution.map_values(|o: int| meanings[o])
}

/// What each reference of `refs` refers to.
pub open spec fn referents<T>(refs: Seq<&T>) -> Seq<T> {
    refs.map_values(|m: &T| *m)
}

impl Solution {
    /// Returns the meanings of the options in this solution, in the order
    /// in which the search chose the options. Every option of the solution
    /// must be an option of `matrix`.
    #[must_use]
    pub fn meanings<'a, T>(&self, matrix: &'a Matrix<T>) -> (r: Vec<&'a T>)
        requires
            forall|k: int| 0 <= k < self@.len() ==> 0 <= #[trigger] self@[k] < matrix@.options.len(),
        ensures
            referents(r@) == payloads(matrix.meanings(), self@),
    {
        let mut r: Vec<&'a T> = Vec::new();
        let mut k: usize = 0;
        while k < self.option_ids.len()
            invariant
                k <= self.option_ids@.len(),
                r@.len() == k,
                self@ == option_indices(self.option_ids@),
                forall|j: int|
                    0 <= j < self@.len() ==> 0 <= #[trigger] self@[j] < matrix@.options.len(),
                forall|j: int| 0 <= j < k ==> *(#[trigger] r@[j]) == matrix.meanings()[self@[j]],
            decreases self.option_ids@.len() - k,
        {
            assert(0 <= self@[k as int] < matrix@.options.len());
            r.push(&matrix.get_option(self.option_ids[k]).meaning);
            k += 1;
        }
        assert(referents(r@) =~= payloads(matrix.meanings(), self@));
        r
    }
}

/// A copy of the state of a solver, to come back to.
#[derive(Debug)]
pub struct SavedState {
    available_items: FixedBitSet,
    available_options: FixedBitSet,
    known_correct: HashMap<usize, Color>,
}

impl View for SavedState {
    type V = SearchState;

    closed spec fn view(&self) -> SearchState {
        SearchState {
            items: bits_of(self.available_items),
            options: bits_of(self.available_options),
            colors: int_keys(self.known_correct@),
        }
    }
}

impl SavedState {
    /// Both bit sets of the state are tidy. Every state that a solver saves
    /// is.
    pub closed spec fn tidy(&self) -> bool {
        tidy(self.available_items) && tidy(self.available_options)
    }

    /// Returns the items that are available in this state, in ascending
    /// order.
    pub fn available_items(&self) -> (list: Vec<usize>)
        ensures
            self.tidy() ==> as_ints(list@) == positions(self@.items),
    {
        list_bits(&self.available_items)
    }

    /// Returns the options that are available in this state, in ascending
    /// order.
    pub fn available_options(&self) -> (list: Vec<usize>)
        ensures
            self.tidy() ==> as_ints(list@) == positions(self@.options),
    {
        list_bits(&self.available_options)
    }

    /// Returns the color fixed for each item that has one in this state, by
    /// the item's index.
    pub fn known_correct(&self) -> (colors: &HashMap<usize, Color>)
        ensures
            int_keys(colors@) == self@.colors,
    {
        &self.known_correct
    }
}

impl Clone for SavedState {
    fn clone(&self) -> (r: Self)
        ensures
            r@ == self@,
            r.tidy() == self.tidy(),
    {
        SavedState {
            available_items: copy_bits(&self.available_items),
            available_options: copy_bits(&self.available_options),
            known_correct: self.known_correct.clone(),
        }
    }
}

/// Whether one of the first `b` entries of `list` is `i`.
pub open spec fn among(list: Seq<int>, b: int, i: int) -> bool {
    exists|j: int| 0 <= j < b && #[trigger] list[j] == i
}

/// Whether one of the options below `bound` touches `item` and gives it
/// `color`.
pub open spec fn gives_below(p: Problem, item: int, color: Color, bound: int) -> bool {
    exists|x: int| x < bound && p.touches(x, item) && #[trigger] p.color(x, item) == Some(color)
}

/// The state in the middle of a commit to option `o` that started in `st`:
/// the items below `bound` are dealt with, the others are not.
pub open spec fn commit_upto(p: Problem, st: SearchState, o: int, bound: int) -> SearchState {
    SearchState {
        items: Seq::new(st.items.len(), |i: int| st.items[i] && !(i < bound && p.touches(o, i))),
        options: Seq::new(
            st.options.len(),
            |x: int| st.options[x] && forall|i: int| i < bound ==> #[trigger] spares(p, st, o, x, i),
        ),
        colors: Map::new(
            |i: int| st.colors.contains_key(i) || (i < bound && fixes(p, st, o, i)),
            |i: int|
                if st.colors.contains_key(i) {
                    st.colors[i]
                } else {
                    p.color(o, i)->0
                },
        ),
    }
}

/// A commit has nothing to do for items that its option does not touch.
pub proof fn lemma_commit_skips(p: Problem, st: SearchState, o: int, lo: int, hi: int)
    requires
        lo <= hi,
        forall|i: int| lo <= i < hi ==> !p.touches(o, i),
    ensures
        commit_upto(p, st, o, hi) == commit_upto(p, st, o, lo),
{
    let a = commit_upto(p, st, o, hi);
    let b = commit_upto(p, st, o, lo);
    assert(a.items =~= b.items);
    assert(a.colors =~= b.colors);
    assert forall|x: int| 0 <= x < st.options.len() implies a.options[x] == b.options[x] by {
        if b.options[x] {
            assert forall|i: int| i < hi implies #[trigger] spares(p, st, o, x, i) by {}
        }
    }
    assert(a.options =~= b.options);
}

/// What dealing with item `i` adds to a commit.
pub proof fn lemma_commit_step(p: Problem, st: SearchState, o: int, i: int)
    ensures
        forall|x: int|
            0 <= x < st.options.len() ==> #[trigger] commit_upto(p, st, o, i + 1).options[x] == (
            commit_upto(p, st, o, i).options[x] && spares(p, st, o, x, i)),
{
    let a = commit_upto(p, st, o, i + 1);
    let b = commit_upto(p, st, o, i);
    assert forall|x: int| 0 <= x < st.options.len() implies #[trigger] a.options[x] == (
    b.options[x] && spares(p, st, o, x, i)) by {
        if b.options[x] && spares(p, st, o, x, i) {
            assert forall|j: int| j < i + 1 implies #[trigger] spares(p, st, o, x, j) by {}
        }
        if a.options[x] {
            assert(spares(p, st, o, x, i));
        }
    }
}

/// A commit is over once every item of the problem is dealt with.
pub proof fn lemma_commit_whole(p: Problem, st: SearchState, o: int)
    requires
        p.wf(),
        p.is_option(o),
    ensures
        commit_upto(p, st, o, p.num_items as int) == commit(p, st, o),
{
    let a = commit_upto(p, st, o, p.num_items as int);
    let b = commit(p, st, o);
    assert(p.options[o].wf(p.num_items));
    assert(a.items =~= b.items);
    assert(a.colors =~= b.colors);
    assert forall|x: int| 0 <= x < st.options.len() implies a.options[x] == b.options[x] by {
        if a.options[x] {
            assert forall|i: int| spares(p, st, o, x, i) by {
                if i < p.num_items {
                    assert(spares(p, st, o, x, i));
                }
            }
        }
    }
    assert(a.options =~= b.options);
}

/// What each solution of `results` holds.
pub open spec fn solution_views(results: Seq<Solution>) -> Seq<Seq<int>> {
    results.map_values(|s: Solution| s@)
}

/// The part of `all` that a search with the given limit reports: all of it,
/// or no more of it than the limit allows.
pub open spec fn reported(all: Seq<Seq<int>>, limit: Limit) -> Seq<Seq<int>> {
    match limit {
        Limit::All => all,
        Limit::Max(n) => {
            let most: int = if n == 0 {
                1
            } else {
                n as int
            };
            if all.len() <= most {
                all
            } else {
                all.take(most)
            }
        },
    }
}

/// The solutions that the search has yet to find below the nodes on its
/// stack, the top of the stack first.
pub open spec fn pending(p: Problem, stack: Seq<(SavedState, Vec<OptionId>)>) -> Seq<Seq<int>>
    decreases stack.len(),
{
    if stack.len() == 0 {
        Seq::empty()
    } else {
        solutions_from(p, stack.last().0@, option_indices(stack.last().1@)) + pending(
            p,
            stack.drop_last(),
        )
    }
}

/// The number of nodes that the search has yet to visit at and below the
/// nodes on its stack.
pub open spec fn pending_nodes(p: Problem, stack: Seq<(SavedState, Vec<OptionId>)>) -> nat
    decreases stack.len(),
{
    if stack.len() == 0 {
        0
    } else {
        nodes_from(p, stack.last().0@) + pending_nodes(p, stack.drop_last())
    }
}

/// Whether the solver is in the state in which a search starts.
pub open spec fn is_fresh(p: Problem, st: SearchState) -> bool {
    st == SearchState::initial(p)
}

/// Every entry of `sols` is sound: it touches every primary item and colors
/// the secondary items consistently, and where no option of `p` gives a
/// primary item a color it solves `p`.
pub open spec fn all_sound(p: Problem, sols: Seq<Seq<int>>) -> bool {
    forall|k: int| 0 <= k < sols.len() ==> is_sound(p, #[trigger] sols[k])
}

/// A solver for an exact cover problem with colored secondary items.
pub struct Solver<'a, T> {
    matrix: &'a Matrix<T>,
    /// Bitmask of items that can still be used.
    available_items: FixedBitSet,
    /// Bitmask of options that can still be used.
    available_options: FixedBitSet,
    /// Map of item => color that we have committed to
    committed_colors: HashMap<usize, Color>,
}

impl<'a, T> View for Solver<'a, T> {
    type V = SearchState;

    closed spec fn view(&self) -> SearchState {
        SearchState {
            items: bits_of(self.available_items),
            options: bits_of(self.available_options),
            colors: int_keys(self.committed_colors@),
        }
    }
}

impl<'a, T> Solver<'a, T> {
    /// The matrix that the solver searches.
    pub closed spec fn matrix(&self) -> &Matrix<T> {
        self.matrix
    }

    /// The problem that the solver searches.
    pub open spec fn problem(&self) -> Problem {
        self.matrix()@
    }

    /// Both bit sets of the solver are tidy.
    pub closed spec fn tidy(&self) -> bool {
        tidy(self.available_items) && tidy(self.available_options)
    }

    /// The matrix is well formed, and the solver keeps a bit for each of its
    /// items and options.
    pub open spec fn wf(&self) -> bool {
        self.matrix().wf() && self@.fits(self.problem()) && self.tidy()
    }

    /// Creates a new solver for the given matrix, with every item and every
    /// option available and no color fixed.
    #[must_use]
    pub fn new(matrix: &'a Matrix<T>) -> (s: Self)
        ensures
            s.matrix() == matrix,
            s@ == SearchState::initial(matrix@),
            matrix.wf() ==> s.wf(),
    {
        let available_items = full_bits(matrix.num_items());
        let available_options = full_bits(matrix.num_options());
        let s = Self { matrix, available_items, available_options, committed_colors: HashMap::new() };
        proof {
            assert(s@.items =~= SearchState::initial(matrix@).items);
            assert(s@.options =~= SearchState::initial(matrix@).options);
            assert(s@.colors =~= SearchState::initial(matrix@).colors);
        }
        s
    }

    /// Counts, for each item, the available options that touch it.
    #[must_use]
    pub fn count_items(&self) -> (counts: Vec<usize>)
        requires
            self.wf(),
        ensures
            counts@.len() == self.problem().num_items,
            forall|i: int|
                0 <= i < counts@.len() ==> #[trigger] counts@[i] == option_count(
                    self.problem(),
                    self@,
                    i,
                ),
    {
        let ghost p = self.problem();
        let ghost st = self@;
        let n = self.matrix.num_items();
        let mut item_counts: Vec<usize> = vec![0usize; n];
        let live = list_bits(&self.available_options);
        let mut a: usize = 0;
        while a < live.len()
            invariant
                self.wf(),
                p == self.problem(),
                st == self@,
                n == p.num_items,
                as_ints(live@) == positions(st.options),
                a <= live@.len(),
                item_counts@.len() == n,
                forall|i: int|
                    0 <= i < n ==> #[trigger] item_counts@[i] == count_set(
                        live_column(p, st, i),
                        reached(as_ints(live@), a as int) as nat,
                    ),
            decreases live@.len() - a,
        {
            let o = live[a];
            let ghost lo = reached(as_ints(live@), a as int) as nat;
            proof {
                lemma_positions_gap(st.options, a as int);
                lemma_positions_upto(st.options, st.options.len());
                assert(as_ints(live@)[a as int] == o);
                assert(is_set(st.options, o as int));
            }
            let items = self.matrix.items_for_option(OptionId::new(o));
            let ghost base = item_counts@;
            let ghost row = p.options[o as int];
            let ghost list = item_indices(items@);
            proof {
                lemma_positions_upto(row.items, row.items.len());
                assert(p.is_option(o as int));
                assert(row.wf(p.num_items));
                assert forall|i: int| 0 <= i < n implies base[i] == count_set(
                    live_column(p, st, i),
                    o as nat,
                ) && base[i] <= o by {
                    lemma_skip_clear(live_column(p, st, i), lo, o as nat);
                    lemma_count_set_bound(live_column(p, st, i), o as nat);
                }
            }
            let mut b: usize = 0;
            while b < items.len()
                invariant
                    b <= items@.len(),
                    list == item_indices(items@),
                    list == positions(row.items),
                    row.items.len() == n,
                    item_counts@.len() == n,
                    base.len() == n,
                    o < usize::MAX,
                    forall|i: int| 0 <= i < n ==> base[i] <= o,
                    forall|j: int| 0 <= j < list.len() ==> 0 <= #[trigger] list[j] < n,
                    forall|j: int, l: int| 0 <= j < l < list.len() ==> list[j] < list[l],
                    forall|i: int|
                        0 <= i < n ==> #[trigger] item_counts@[i] == base[i] + (if among(
                            list,
                            b as int,
                            i,
                        ) {
                            1int
                        } else {
                            0int
                        }),
                decreases items@.len() - b,
            {
                let idx = items[b].0.index();
                assert(list[b as int] == idx);
                assert(!among(list, b as int, idx as int)) by {
                    if among(list, b as int, idx as int) {
                        let j = choose|j: int| 0 <= j < b && #[trigger] list[j] == idx as int;
                        assert(list[j] < list[b as int]);
                    }
                }
                let c = item_counts[idx];
                item_counts.set(idx, c + 1);
                proof {
                    assert forall|i: int| 0 <= i < n implies #[trigger] item_counts@[i] == base[i]
                        + (if among(list, b + 1, i) {
                        1int
                    } else {
                        0int
                    }) by {
                        if among(list, b as int, i) {
                            let j = choose|j: int| 0 <= j < b && #[trigger] list[j] == i;
                            assert(0 <= j < b + 1 && list[j] == i);
                        }
                        if i == idx {
                            assert(0 <= b < b + 1 && list[b as int] == i);
                        }
                    }
                }
                b += 1;
            }
            proof {
                assert forall|i: int| 0 <= i < n implies #[trigger] item_counts@[i] == count_set(
                    live_column(p, st, i),
                    (o + 1) as nat,
                ) by {
                    assert(is_set(live_column(p, st, i), o as int) == p.touches(o as int, i));
                    if p.touches(o as int, i) {
                        assert(list.contains(i));
                        let j = choose|j: int| 0 <= j < list.len() && list[j] == i;
                        assert(among(list, list.len() as int, i));
                    }
                    if among(list, list.len() as int, i) {
                        let j = choose|j: int| 0 <= j < list.len() && #[trigger] list[j] == i;
                        assert(is_set(row.items, list[j]));
                    }
                }
            }
            a += 1;
        }
        proof {
            lemma_positions_gap(st.options, live@.len() as int);
            let lo = reached(as_ints(live@), live@.len() as int) as nat;
            assert forall|i: int| 0 <= i < item_counts@.len() implies #[trigger] item_counts@[i]
                == option_count(p, st, i) by {
                lemma_skip_clear(live_column(p, st, i), lo, p.options.len());
            }
        }
        item_counts
    }

    /// Finds the available primary item with the fewest available options,
    /// the one of lowest index where several have that few. Returns `None`
    /// where no primary item is available.
    #[must_use]
    pub fn choose_next_item(&self) -> (r: Option<ItemId>)
        requires
            self.wf(),
        ensures
            next_item(self.problem(), self@) == match r {
                Some(i) => Some(i.0 as int),
                None => None,
            },
            r matches Some(i) ==> is_next_item(self.problem(), self@, i.0 as int),
            r is None ==> forall|i: int|
                self.problem().is_primary(i) ==> !is_set(self@.items, i),
    {
        let ghost p = self.problem();
        let ghost st = self@;
        let item_counts = self.count_items();
        let live = list_bits(&self.available_items);
        let num_primary = self.matrix.num_primary_items();
        let ghost list = as_ints(live@);
        let mut best: Option<usize> = None;
        let mut a: usize = 0;
        while a < live.len() && live[a] < num_primary
            invariant
                self.wf(),
                p == self.problem(),
                st == self@,
                num_primary == p.num_primary,
                list == as_ints(live@),
                list == positions(st.items),
                a <= live@.len(),
                item_counts@.len() == p.num_items,
                forall|i: int|
                    0 <= i < item_counts@.len() ==> #[trigger] item_counts@[i] == option_count(
                        p,
                        st,
                        i,
                    ),
                best is None ==> a == 0,
                best matches Some(b) ==> leads_below(p, st, b as int, reached(list, a as int)),
            decreases live@.len() - a,
        {
            let i = live[a];
            proof {
                lemma_positions_gap(st.items, a as int);
                lemma_positions_upto(st.items, st.items.len());
                assert(list[a as int] == i);
                assert(is_set(st.items, i as int));
                assert(reached(list, a + 1) == i + 1);
            }
            match best {
                None => {
                    best = Some(i);
                    assert(leads_below(p, st, i as int, i + 1));
                },
                Some(b) => {
                    assert(item_counts@[i as int] == option_count(p, st, i as int));
                    assert(item_counts@[b as int] == option_count(p, st, b as int));
                    if item_counts[i] < item_counts[b] {
                        best = Some(i);
                        assert(leads_below(p, st, i as int, i + 1));
                    } else {
                        assert(leads_below(p, st, b as int, i + 1));
                    }
                },
            }
            a += 1;
        }
        proof {
            lemma_positions_gap(st.items, a as int);
            if a < live@.len() {
                assert(list[a as int] == live@[a as int]);
            }
            match best {
                None => {
                    assert forall|i: int| p.is_primary(i) implies !is_set(st.items, i) by {}
                    assert forall|i: int| !is_next_item(p, st, i) by {}
                },
                Some(b) => {
                    assert(is_next_item(p, st, b as int));
                    lemma_next_item_unique(p, st, b as int);
                },
            }
        }
        match best {
            Some(b) => Some(ItemId::new(b)),
            None => None,
        }
    }

    /// Covers an item: makes it unavailable, and with it every available
    /// option that touches it. Returns those options, in ascending order.
    pub fn cover_item_and_its_options(&mut self, item: ItemId) -> (hidden: Vec<OptionId>)
        requires
            old(self).wf(),
            item.0 < old(self).problem().num_items,
        ensures
            final(self).wf(),
            final(self).matrix() == old(self).matrix(),
            final(self)@ == cover(old(self).problem(), old(self)@, item.0 as int),
            option_indices(hidden@) == candidates(old(self).problem(), old(self)@, item.0 as int),
    {
        let ghost p = self.problem();
        let ghost st = self@;
        let ghost it = item.0 as int;
        let ghost column = p.column(it);
        let ghost live = live_column(p, st, it);
        let ghost list = touching(p, it);
        let matrix = self.matrix;
        let mut covered_options: Vec<OptionId> = Vec::new();
        let rows = matrix.options_for_item(item);
        assert(option_indices(covered_options@) =~= positions_upto(live, 0));
        let mut a: usize = 0;
        while a < rows.len()
            invariant
                self.wf(),
                self.matrix() == old(self).matrix(),
                matrix == self.matrix(),
                p == self.problem(),
                st.fits(p),
                it == item.0,
                column == p.column(it),
                live == live_column(p, st, it),
                list == positions(column),
                a <= rows@.len() == list.len(),
                forall|k: int|
                    0 <= k < rows@.len() ==> *(#[trigger] rows@[k]) == matrix.rows()[list[k]],
                self@.items == st.items,
                self@.colors == st.colors,
                self@.options == Seq::new(
                    st.options.len(),
                    |x: int| st.options[x] && !(x < reached(list, a as int) && p.touches(x, it)),
                ),
                option_indices(covered_options@) == positions_upto(
                    live,
                    reached(list, a as int) as nat,
                ),
            decreases rows@.len() - a,
        {
            let option = rows[a];
            let id = option.option_id;
            let ghost lo = reached(list, a as int);
            let ghost x = list[a as int];
            proof {
                lemma_positions_gap(column, a as int);
                lemma_positions_upto(column, column.len());
                assert(is_set(column, x));
                assert(id.0 == x);
                assert forall|y: int| lo <= y < x implies !(#[trigger] p.touches(y, it)) by {
                    assert(!is_set(column, y));
                }
                assert forall|y: int| lo <= y < x implies !(#[trigger] is_set(live, y)) by {
                    assert(!is_set(column, y));
                }
                lemma_skip_clear(live, lo as nat, x as nat);
            }
            let ghost before = self@.options;
            if has_bit(&self.available_options, id.index()) {
                set_bit(&mut self.available_options, id.index(), false);
                covered_options.push(id);
            }
            proof {
                assert(is_set(live, x) == is_set(st.options, x));
                assert(is_set(before, x) == is_set(st.options, x));
                assert(self@.options =~= Seq::new(
                    st.options.len(),
                    |y: int| st.options[y] && !(y < x + 1 && p.touches(y, it)),
                ));
                assert(option_indices(covered_options@) =~= positions_upto(live, (x + 1) as nat));
            }
            a += 1;
        }
        proof {
            lemma_positions_gap(column, rows@.len() as int);
            let lo = reached(list, rows@.len() as int);
            assert forall|y: int| lo <= y < live.len() implies !(#[trigger] p.touches(y, it)) by {
                assert(!is_set(column, y));
            }
            assert forall|y: int| lo <= y < live.len() implies !(#[trigger] is_set(live, y)) by {
                assert(!is_set(column, y));
            }
            lemma_skip_clear(live, lo as nat, live.len());
            assert(self@.options =~= cover(p, st, it).options);
        }
        set_bit(&mut self.available_items, item.index(), false);
        proof {
            assert(self@.items =~= cover(p, st, it).items);
        }
        covered_options
    }

    /// Purifies an item of the matrix: every option that touches it without
    /// giving it `color` becomes unavailable, and `color` is fixed for the
    /// item if an option gives it.
    pub fn purify(&mut self, item: ItemId, color: Color)
        requires
            old(self).wf(),
            item.0 < old(self).problem().num_items,
        ensures
            final(self).wf(),
            final(self).matrix() == old(self).matrix(),
            final(self)@ == purify(old(self).problem(), old(self)@, item.0 as int, color),
    {
        let ghost p = self.problem();
        let ghost st = self@;
        let ghost it = item.0 as int;
        let ghost column = p.column(it);
        let ghost list = touching(p, it);
        let matrix = self.matrix;
        let rows = matrix.options_for_item(item);
        let mut a: usize = 0;
        while a < rows.len()
            invariant
                self.wf(),
                self.matrix() == old(self).matrix(),
                matrix == self.matrix(),
                p == self.problem(),
                st.fits(p),
                it == item.0,
                column == p.column(it),
                list == positions(column),
                a <= rows@.len() == list.len(),
                forall|k: int|
                    0 <= k < rows@.len() ==> *(#[trigger] rows@[k]) == matrix.rows()[list[k]],
                self@.items == st.items,
                self@.options == Seq::new(
                    st.options.len(),
                    |x: int|
                        st.options[x] && (x < reached(list, a as int) && p.touches(x, it)
                            ==> p.color(x, it) == Some(color)),
                ),
                self@.colors == (if gives_below(p, it, color, reached(list, a as int)) {
                    st.colors.insert(it, color)
                } else {
                    st.colors
                }),
            decreases rows@.len() - a,
        {
            let option = rows[a];
            let id = option.option_id;
            let ghost lo = reached(list, a as int);
            let ghost x = list[a as int];
            proof {
                lemma_positions_gap(column, a as int);
                lemma_positions_upto(column, column.len());
                assert(is_set(column, x));
                assert(id.0 == x);
                assert(p.touches(x, it));
            }
            let same = match option.colors.get(&item.index()) {
                Some(c) => *c == color,
                None => false,
            };
            assert(same == (p.color(x, it) == Some(color)));
            let ghost before = self@;
            if same {
                self.committed_colors.insert(item.index(), color);
                assert(self@.colors =~= before.colors.insert(it, color));
            } else {
                set_bit(&mut self.available_options, id.index(), false);
            }
            proof {
                assert(gives_below(p, it, color, x + 1) == (gives_below(p, it, color, lo) || same))
                    by {
                    if gives_below(p, it, color, x + 1) {
                        let y = choose|y: int|
                            y < x + 1 && p.touches(y, it) && #[trigger] p.color(y, it) == Some(
                                color,
                            );
                        if y < x && !(y < lo) {
                            assert(is_set(column, y));
                        }
                    }
                    if gives_below(p, it, color, lo) {
                        let y = choose|y: int|
                            y < lo && p.touches(y, it) && #[trigger] p.color(y, it) == Some(color);
                        assert(y < x + 1);
                    }
                }
                assert(self@.colors =~= (if gives_below(p, it, color, x + 1) {
                    st.colors.insert(it, color)
                } else {
                    st.colors
                }));
                assert(self@.options =~= Seq::new(
                    st.options.len(),
                    |y: int|
                        st.options[y] && (y < x + 1 && p.touches(y, it) ==> p.color(y, it)
                            == Some(color)),
                )) by {
                    assert forall|y: int| 0 <= y < st.options.len() implies self@.options[y] == (
                    st.options[y] && (y < x + 1 && p.touches(y, it) ==> p.color(y, it) == Some(
                        color,
                    ))) by {
                        if lo <= y < x {
                            assert(!is_set(column, y));
                        }
                    }
                }
            }
            a += 1;
        }
        proof {
            lemma_positions_gap(column, rows@.len() as int);
            let lo = reached(list, rows@.len() as int);
            assert(self@.options =~= purify(p, st, it, color).options) by {
                assert forall|y: int| 0 <= y < st.options.len() implies self@.options[y] == purify(
                    p,
                    st,
                    it,
                    color,
                ).options[y] by {
                    if lo <= y {
                        assert(!is_set(column, y));
                    }
                }
            }
            let whole = exists|y: int| p.touches(y, it) && #[trigger] p.color(y, it) == Some(color);
            assert(gives_below(p, it, color, lo) == whole) by {
                if whole {
                    let y = choose|y: int|
                        p.touches(y, it) && #[trigger] p.color(y, it) == Some(color);
                    if lo <= y {
                        assert(!is_set(column, y));
                    }
                }
            }
        }
    }

    /// Commits to an option. For each item that the option touches and that
    /// is still available: an item without a color is covered; an item with
    /// a color is purified, unless a color was fixed for it before; either
    /// way the item becomes unavailable.
    pub fn commit(&mut self, option_id: OptionId)
        requires
            old(self).wf(),
            option_id.0 < old(self).problem().options.len(),
        ensures
            final(self).wf(),
            final(self).matrix() == old(self).matrix(),
            final(self)@ == commit(old(self).problem(), old(self)@, option_id.0 as int),
    {
        let ghost p = self.problem();
        let ghost st = self@;
        let ghost o = option_id.0 as int;
        let ghost row = p.options[o];
        let matrix = self.matrix;
        let items = matrix.items_for_option(option_id);
        let ghost list = item_indices(items@);
        proof {
            assert(p.is_option(o));
            assert(row.wf(p.num_items));
            assert(self@ =~= commit_upto(p, st, o, 0));
        }
        let mut a: usize = 0;
        while a < items.len()
            invariant
                self.wf(),
                self.matrix() == old(self).matrix(),
                matrix == self.matrix(),
                p == self.problem(),
                st.fits(p),
                p.is_option(o),
                row == p.options[o],
                row.wf(p.num_items),
                list == item_indices(items@),
                list == positions(row.items),
                a <= items@.len(),
                forall|k: int|
                    0 <= k < items@.len() ==> (#[trigger] items@[k]).1 == p.color(o, list[k]),
                self@ == commit_upto(p, st, o, reached(list, a as int)),
            decreases items@.len() - a,
        {
            let (item, color) = items[a];
            let ghost lo = reached(list, a as int);
            let ghost i = list[a as int];
            proof {
                lemma_positions_gap(row.items, a as int);
                lemma_positions_upto(row.items, row.items.len());
                assert(is_set(row.items, i));
                assert(item.0 == i);
                assert(color == p.color(o, i));
                lemma_commit_skips(p, st, o, lo, i);
            }
            let ghost s = self@;
            if has_bit(&self.available_items, item.index()) {
                assert(is_set(st.items, i));
                assert(s.colors.contains_key(i) == st.colors.contains_key(i));
                match color {
                    None => {
                        self.cover_item_and_its_options(item);
                    },
                    Some(color) => {
                        if !self.committed_colors.contains_key(&item.index()) {
                            self.purify(item, color);
                            assert(p.touches(o, i) && p.color(o, i) == Some(color));
                        }
                    },
                }
                set_bit(&mut self.available_items, item.index(), false);
                proof {
                    lemma_commit_step(p, st, o, i);
                    let t = commit_upto(p, st, o, i + 1);
                    assert(self@.items =~= t.items);
                    assert(self@.options =~= t.options);
                    assert(self@.colors =~= t.colors);
                }
            } else {
                proof {
                    assert(!is_set(st.items, i));
                    lemma_commit_step(p, st, o, i);
                    let t = commit_upto(p, st, o, i + 1);
                    assert(self@.items =~= t.items);
                    assert(self@.options =~= t.options);
                    assert(self@.colors =~= t.colors);
                }
            }
            a += 1;
        }
        proof {
            lemma_positions_gap(row.items, items@.len() as int);
            let lo = reached(list, items@.len() as int);
            lemma_commit_skips(p, st, o, lo, p.num_items as int);
            lemma_commit_whole(p, st, o);
        }
    }

    /// Finds all solutions, in the order of the search.
    pub fn solve_all(&mut self) -> (results: Vec<Solution>)
        requires
            old(self).wf(),
        ensures
            final(self).wf(),
            final(self).matrix() == old(self).matrix(),
            solution_views(results@) == solutions_from(
                old(self).problem(),
                old(self)@,
                Seq::empty(),
            ),
            is_fresh(old(self).problem(), old(self)@) ==> all_sound(
                old(self).problem(),
                solution_views(results@),
            ),
            is_fresh(old(self).problem(), old(self)@) ==> holds_all(
                old(self).problem(),
                solution_views(results@),
            ),
    {
        proof {
            if is_fresh(self.problem(), self@) {
                lemma_all_solutions_hold_all(self.problem());
            }
        }
        self.solve(Limit::All)
    }

    /// Searches for up to two solutions. Returns `NoSolution` if there is
    /// none, `One(s)` if `s` is the only one, and `Ambiguous(s1, s2)` if
    /// there are more, where `s2` is the first that the search finds and
    /// `s1` the second.
    pub fn solve_unique(&mut self) -> (r: Unique<Solution>)
        requires
            old(self).wf(),
        ensures
            final(self).wf(),
            final(self).matrix() == old(self).matrix(),
            ({
                let all = solutions_from(old(self).problem(), old(self)@, Seq::empty());
                match r {
                    Unique::NoSolution => all.len() == 0,
                    Unique::One(s) => all.len() == 1 && s@ == all[0],
                    Unique::Ambiguous(s1, s2) => all.len() >= 2 && s1@ == all[1] && s2@ == all[0],
                }
            }),
            is_fresh(old(self).problem(), old(self)@) ==> match r {
                Unique::NoSolution => true,
                Unique::One(s) => is_sound(old(self).problem(), s@),
                Unique::Ambiguous(s1, s2) => is_sound(old(self).problem(), s1@) && is_sound(
                    old(self).problem(),
                    s2@,
                ),
            },
            r matches Unique::Ambiguous(s1, s2) ==> !same_options(s1@, s2@),
    {
        let mut solutions = self.solve(Limit::Max(2));
        let ghost found = solutions@;
        let s1 = solutions.pop();
        let s2 = solutions.pop();
        proof {
            let p = old(self).problem();
            let all = solutions_from(p, old(self)@, Seq::empty());
            let views = solution_views(found);
            assert(views.len() == found.len());
            assert(all.len() > 2 ==> all.take(2).len() == 2);
            if found.len() > 0 {
                assert(views[found.len() - 1] == found[found.len() - 1]@);
                assert(is_fresh(p, old(self)@) ==> is_sound(p, views[found.len() - 1]));
            }
            if found.len() > 1 {
                assert(views[found.len() - 2] == found[found.len() - 2]@);
                assert(is_fresh(p, old(self)@) ==> is_sound(p, views[found.len() - 2]));
                assert(!same_options(all[0], all[1])) by {
                    lemma_solutions_differ(p, old(self)@, Seq::empty(), 0, 1);
                }
            }
        }
        match s1 {
            None => Unique::NoSolution,
            Some(s1) => match s2 {
                None => Unique::One(s1),
                Some(s2) => Unique::Ambiguous(s1, s2),
            },
        }
    }

    /// Returns the first solution that the search finds, or `None` if there
    /// is no solution.
    pub fn solve_once(&mut self) -> (r: Option<Solution>)
        requires
            old(self).wf(),
        ensures
            final(self).wf(),
            final(self).matrix() == old(self).matrix(),
            ({
                let all = solutions_from(old(self).problem(), old(self)@, Seq::empty());
                match r {
                    None => all.len() == 0,
                    Some(s) => all.len() > 0 && s@ == all[0],
                }
            }),
            is_fresh(old(self).problem(), old(self)@) ==> (r matches Some(s) ==> is_sound(
                old(self).problem(),
                s@,
            )),
    {
        let mut solutions = self.solve(Limit::Max(1));
        let ghost found = solutions@;
        proof {
            let all = solutions_from(old(self).problem(), old(self)@, Seq::empty());
            assert(solution_views(found).len() == found.len());
            assert(all.len() > 1 ==> all.take(1).len() == 1);
            if found.len() > 0 {
                assert(solution_views(found)[0] == found[0]@);
            }
        }
        solutions.pop()
    }

    /// Searches depth first, from the state that the solver is in, and
    /// returns the solutions in the order in which it finds them. It stops
    /// when the limit is reached or nothing is left to try.
    ///
    /// The search keeps a stack of nodes, each a saved state with the
    /// options chosen on the way to it. It takes the top node. If no primary
    /// item is available there, the options chosen are a solution. Else it
    /// covers the item to branch on and pushes one node for each candidate,
    /// so that the last candidate is tried first.
    pub fn solve(&mut self, limit: Limit) -> (results: Vec<Solution>)
        requires
            old(self).wf(),
        ensures
            final(self).wf(),
            final(self).matrix() == old(self).matrix(),
            solution_views(results@) == reported(
                solutions_from(old(self).problem(), old(self)@, Seq::empty()),
                limit,
            ),
            is_fresh(old(self).problem(), old(self)@) ==> all_sound(
                old(self).problem(),
                solution_views(results@),
            ),
    {
        let ghost p = self.problem();
        let ghost all = solutions_from(p, self@, Seq::empty());
        proof {
            if is_fresh(p, self@) {
                lemma_search_is_sound(p);
                assert(all == all_solutions(p));
                assert(all_sound(p, all));
                assert(all_sound(p, reported(all, limit)));
            }
        }
        let mut results: Vec<Solution> = Vec::new();
        let mut stack: Vec<(SavedState, Vec<OptionId>)> = Vec::new();
        stack.push((self.save_state(), Vec::new()));
        proof {
            assert(stack@.drop_last() =~= Seq::empty());
            assert(option_indices(stack@.last().1@) =~= Seq::empty());
            assert(pending(p, stack@.drop_last()) =~= Seq::empty());
            assert(all + Seq::<Seq<int>>::empty() =~= all);
            assert(pending(p, stack@) =~= all);
            assert(solution_views(results@) =~= Seq::empty());
        }
        loop
            invariant_except_break
                solution_views(results@) + pending(p, stack@) == all,
                limit matches Limit::Max(n) ==> results@.len() < (if n == 0 {
                    1
                } else {
                    n as int
                }),
            invariant
                self.wf(),
                self.matrix() == old(self).matrix(),
                p == self.problem(),
                forall|k: int|
                    0 <= k < stack@.len() ==> (#[trigger] stack@[k]).0@.fits(p) && stack@[k].0.tidy(),
            ensures
                solution_views(results@) == reported(all, limit),
            decreases pending_nodes(p, stack@),
        {
            let ghost before = stack@;
            let ghost found = solution_views(results@);
            match stack.pop() {
                None => {
                    assert(pending(p, stack@) =~= Seq::empty());
                    assert(found + Seq::<Seq<int>>::empty() =~= found);
                    break ;
                },
                Some((state, mut solution)) => {
                    let ghost rest = stack@;
                    let ghost st = state@;
                    let ghost chosen = option_indices(solution@);
                    proof {
                        assert(rest =~= before.drop_last());
                        assert(before.last() == (state, solution));
                        assert(before[before.len() - 1].0@.fits(p));
                        assert forall|k: int| 0 <= k < rest.len() implies (#[trigger] rest[k]).0@.fits(
                            p,
                        ) && rest[k].0.tidy() by {
                            assert(rest[k] == before[k]);
                        }
                    }
                    self.restore(state);
                    match self.choose_next_item() {
                        None => {
                            let solved = Solution { option_ids: solution };
                            assert(solved@ == chosen);
                            results.push(solved);
                            proof {
                                assert(solution_views(results@) =~= found.push(chosen));
                                assert(solutions_from(p, st, chosen) =~= seq![chosen]);
                                assert(found.push(chosen) + pending(p, rest) =~= found + (seq![
                                    chosen,
                                ] + pending(p, rest)));
                            }
                            if limit.reached(results.len()) {
                                proof {
                                    let now = solution_views(results@);
                                    assert(all.take(now.len() as int) =~= now);
                                    if all.len() <= now.len() {
                                        assert(all =~= now);
                                    }
                                }
                                break ;
                            }
                        },
                        Some(item) => {
                            let ghost it = item.0 as int;
                            let option_ids = self.cover_item_and_its_options(item);
                            let ss = self.save_state();
                            let ghost covered = ss@;
                            let ghost cands = option_indices(option_ids@);
                            proof {
                                assert(next_item(p, st) == Some(it));
                                assert(covered == cover(p, st, it));
                                assert(cands == candidates(p, st, it));
                                lemma_positions_upto(
                                    live_column(p, st, it),
                                    live_column(p, st, it).len(),
                                );
                            }
                            let mut j: usize = 0;
                            while j < option_ids.len()
                                invariant
                                    self.wf(),
                                    self.matrix() == old(self).matrix(),
                                    p == self.problem(),
                                    covered == ss@,
                                    covered.fits(p),
                                    ss.tidy(),
                                    cands == option_indices(option_ids@),
                                    chosen == option_indices(solution@),
                                    forall|k: int|
                                        0 <= k < cands.len() ==> 0 <= #[trigger] cands[k]
                                            < p.options.len(),
                                    j <= option_ids@.len(),
                                    forall|k: int|
                                        0 <= k < stack@.len() ==> (#[trigger] stack@[k]).0@.fits(p)
                                            && stack@[k].0.tidy(),
                                    pending(p, stack@) == branch_solutions(
                                        p,
                                        covered,
                                        cands,
                                        chosen,
                                        j as nat,
                                    ) + pending(p, rest),
                                    pending_nodes(p, stack@) == branch_nodes(
                                        p,
                                        covered,
                                        cands,
                                        j as nat,
                                    ) + pending_nodes(p, rest),
                                decreases option_ids@.len() - j,
                            {
                                let option = option_ids[j];
                                let ghost below = stack@;
                                assert(cands[j as int] == option.0);
                                self.restore(ss.clone());
                                self.commit(option);
                                solution.push(option);
                                let saved_state = self.save_state();
                                let path = solution.clone();
                                proof {
                                    assert(option_indices(path@) =~= chosen.push(option.0 as int));
                                }
                                stack.push((saved_state, path));
                                solution.pop();
                                proof {
                                    assert(option_indices(solution@) =~= chosen);
                                    assert(stack@.drop_last() =~= below);
                                    assert(stack@.last() == (saved_state, path));
                                    assert(pending(p, stack@) =~= branch_solutions(
                                        p,
                                        covered,
                                        cands,
                                        chosen,
                                        (j + 1) as nat,
                                    ) + pending(p, rest));
                                }
                                j += 1;
                            }
                        },
                    }
                },
            }
        }
        results
    }

    /// Copies the state of the solver.
    pub fn save_state(&self) -> (saved: SavedState)
        ensures
            saved@ == self@,
            saved.tidy() == self.tidy(),
    {
        SavedState {
            available_items: copy_bits(&self.available_items),
            available_options: copy_bits(&self.available_options),
            known_correct: self.committed_colors.clone(),
        }
    }

    /// Puts the solver into a state that was saved before.
    pub fn restore(&mut self, state: SavedState)
        ensures
            final(self)@ == state@,
            final(self).tidy() == state.tidy(),
            final(self).matrix() == old(self).matrix(),
    {
        self.available_items = state.available_items;
        self.available_options = state.available_options;
        self.committed_colors = state.known_correct;
    }
}

} // verus!
