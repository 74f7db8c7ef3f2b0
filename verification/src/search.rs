//! What the search does, as mathematics: the state it keeps, the steps it
//! takes, and the solutions it reports, in the order in which it reports
//! them.
use crate::bits::{
    count_set, is_set, lemma_count_set_drops, lemma_count_set_shrinks, positions,
};
use crate::model::Problem;
use crate::types::Color;
use vstd::prelude::*;

verus! {

/// The state of a search at one node of its tree.
#[verifier::ext_equal]
pub struct SearchState {
    /// Bit `i` says whether item `i` is still available.
    pub items: Seq<bool>,
    /// Bit `o` says whether option `o` is still available.
    pub options: Seq<bool>,
    /// The color fixed for each secondary item that has got one.
    pub colors: Map<int, Color>,
}

impl SearchState {
    /// The state has a bit for each item and each option of `p`.
    pub open spec fn fits(self, p: Problem) -> bool {
        self.items.len() == p.num_items && self.options.len() == p.options.len()
    }

    /// The state in which a search of `p` starts: everything is available
    /// and no color is fixed.
    pub open spec fn initial(p: Problem) -> SearchState {
        SearchState {
            items: Seq::new(p.num_items, |i: int| true),
            options: Seq::new(p.options.len(), |o: int| true),
            colors: Map::empty(),
        }
    }
}

/// How many primary items of `p` are available in `st`.
pub open spec fn primaries_left(p: Problem, st: SearchState) -> nat {
    count_set(st.items, p.num_primary)
}

/// Bit `o` says whether option `o` is available in `st` and touches `item`.
pub open spec fn live_column(p: Problem, st: SearchState, item: int) -> Seq<bool> {
    Seq::new(p.options.len(), |o: int| is_set(st.options, o) && p.touches(o, item))
}

/// How many options are available in `st` and touch `item`.
pub open spec fn option_count(p: Problem, st: SearchState, item: int) -> nat {
    count_set(live_column(p, st, item), p.options.len())
}

/// Whether `i` is the item to branch on in `st`: an available primary item
/// with the fewest options left and, among those, the one of lowest index.
pub open spec fn is_next_item(p: Problem, st: SearchState, i: int) -> bool {
    &&& p.is_primary(i)
    &&& is_set(st.items, i)
    &&& forall|j: int|
        p.is_primary(j) && #[trigger] is_set(st.items, j) ==> option_count(p, st, i) < option_count(
            p,
            st,
            j,
        ) || (option_count(p, st, i) == option_count(p, st, j) && i <= j)
}

/// The item to branch on in `st`, or `None` where no primary item is
/// available.
pub open spec fn next_item(p: Problem, st: SearchState) -> Option<int> {
    if exists|i: int| is_next_item(p, st, i) {
        Some(choose|i: int| is_next_item(p, st, i))
    } else {
        None
    }
}

/// Whether `i` is the item to branch on if only the items below `bound`
/// count.
pub open spec fn leads_below(p: Problem, st: SearchState, i: int, bound: int) -> bool {
    &&& p.is_primary(i)
    &&& is_set(st.items, i)
    &&& i < bound
    &&& forall|j: int|
        p.is_primary(j) && #[trigger] is_set(st.items, j) && j < bound ==> option_count(p, st, i)
            < option_count(p, st, j) || (option_count(p, st, i) == option_count(p, st, j) && i
            <= j)
}

/// The item to branch on is unique.
pub proof fn lemma_next_item_unique(p: Problem, st: SearchState, i: int)
    requires
        is_next_item(p, st, i),
    ensures
        next_item(p, st) == Some(i),
{
    let c = choose|c: int| is_next_item(p, st, c);
    assert(is_next_item(p, st, c));
    assert(is_set(st.items, c) && is_set(st.items, i));
}

/// Among the items below `bound`, either no primary item is available or
/// one of them is the item to branch on.
pub proof fn lemma_leader_below(p: Problem, st: SearchState, bound: nat) -> (r: Option<int>)
    ensures
        r is None ==> forall|i: int| p.is_primary(i) && i < bound ==> !is_set(st.items, i),
        r matches Some(b) ==> leads_below(p, st, b, bound as int),
    decreases bound,
{
    if bound == 0 {
        None
    } else {
        let before = lemma_leader_below(p, st, (bound - 1) as nat);
        let i = bound - 1;
        if p.is_primary(i) && is_set(st.items, i) {
            match before {
                None => {
                    assert(leads_below(p, st, i, bound as int));
                    Some(i)
                },
                Some(b) => {
                    if option_count(p, st, i) < option_count(p, st, b) {
                        assert(leads_below(p, st, i, bound as int));
                        Some(i)
                    } else {
                        assert(leads_below(p, st, b, bound as int));
                        before
                    }
                },
            }
        } else {
            match before {
                None => {},
                Some(b) => {
                    assert(leads_below(p, st, b, bound as int));
                },
            }
            before
        }
    }
}

/// The search stops branching only where no primary item is available.
pub proof fn lemma_no_next_item(p: Problem, st: SearchState)
    requires
        next_item(p, st) is None,
    ensures
        forall|i: int| p.is_primary(i) ==> !is_set(st.items, i),
{
    match lemma_leader_below(p, st, p.num_primary) {
        None => {},
        Some(b) => {
            assert(is_next_item(p, st, b));
        },
    }
}

/// The options that covering `item` hides: those available in `st` that
/// touch `item`, in ascending order.
pub open spec fn candidates(p: Problem, st: SearchState, item: int) -> Seq<int> {
    positions(live_column(p, st, item))
}

/// The state after covering `item`: the item and every option that touches
/// it are no longer available.
pub open spec fn cover(p: Problem, st: SearchState, item: int) -> SearchState {
    SearchState {
        items: Seq::new(st.items.len(), |i: int| st.items[i] && i != item),
        options: Seq::new(st.options.len(), |o: int| st.options[o] && !p.touches(o, item)),
        colors: st.colors,
    }
}

/// The state after purifying `item` with `color`: every option that touches
/// the item without giving it that color is no longer available, and the
/// color is fixed for the item if some option gives it.
pub open spec fn purify(p: Problem, st: SearchState, item: int, color: Color) -> SearchState {
    SearchState {
        items: st.items,
        options: Seq::new(
            st.options.len(),
            |o: int| st.options[o] && (p.touches(o, item) ==> p.color(o, item) == Some(color)),
        ),
        colors: if exists|o: int| p.touches(o, item) && #[trigger] p.color(o, item) == Some(color) {
            st.colors.insert(item, color)
        } else {
            st.colors
        },
    }
}

/// Whether a commit to option `o` in state `st` has to deal with item `i`:
/// the option touches it and it is still available.
pub open spec fn handles(p: Problem, st: SearchState, o: int, i: int) -> bool {
    p.touches(o, i) && is_set(st.items, i)
}

/// Whether item `i` lets option `x` stay available when `o` is committed to
/// in `st`. It does unless the commit deals with the item and `x` touches
/// it; then `o` must give the item a color, and either that color was fixed
/// before or `x` gives the item the same color.
pub open spec fn spares(p: Problem, st: SearchState, o: int, x: int, i: int) -> bool {
    handles(p, st, o, i) && p.touches(x, i) ==> match p.color(o, i) {
        None => false,
        Some(c) => st.colors.contains_key(i) || p.color(x, i) == Some(c),
    }
}

/// Whether a commit to option `o` in state `st` fixes a color for item `i`.
pub open spec fn fixes(p: Problem, st: SearchState, o: int, i: int) -> bool {
    handles(p, st, o, i) && p.color(o, i) is Some && !st.colors.contains_key(i)
}

/// The state after committing to option `o`: the items that it touches are
/// no longer available, nor are the options that clash with it, and each of
/// its colored items that had no color before now has the one it gives.
pub open spec fn commit(p: Problem, st: SearchState, o: int) -> SearchState {
    SearchState {
        items: Seq::new(st.items.len(), |i: int| st.items[i] && !p.touches(o, i)),
        options: Seq::new(
            st.options.len(),
            |x: int| st.options[x] && forall|i: int| spares(p, st, o, x, i),
        ),
        colors: Map::new(
            |i: int| st.colors.contains_key(i) || fixes(p, st, o, i),
            |i: int|
                if st.colors.contains_key(i) {
                    st.colors[i]
                } else {
                    p.color(o, i)->0
                },
        ),
    }
}

/// No step of the search makes an item or an option available again: what
/// is available after covering, purifying or committing was available
/// before.
pub proof fn lemma_nothing_comes_back(
    p: Problem,
    st: SearchState,
    item: int,
    color: Color,
    o: int,
)
    ensures
        forall|i: int| is_set(cover(p, st, item).items, i) ==> is_set(st.items, i),
        forall|x: int| is_set(cover(p, st, item).options, x) ==> is_set(st.options, x),
        forall|i: int| is_set(purify(p, st, item, color).items, i) ==> is_set(st.items, i),
        forall|x: int| is_set(purify(p, st, item, color).options, x) ==> is_set(st.options, x),
        forall|i: int| is_set(commit(p, st, o).items, i) ==> is_set(st.items, i),
        forall|x: int| is_set(commit(p, st, o).options, x) ==> is_set(st.options, x),
{
}

/// The solutions that the search finds below the node with state `st` and
/// the options `chosen` so far, in the order in which it reports them.
///
/// Where no primary item is available, `chosen` is the one solution. Else the
/// search covers the item to branch on and tries each of its candidates in
/// turn, the last one first.
pub open spec fn solutions_from(p: Problem, st: SearchState, chosen: Seq<int>) -> Seq<Seq<int>>
    decreases primaries_left(p, st), 0nat,
    via solutions_from_decreases
{
    match next_item(p, st) {
        None => seq![chosen],
        Some(item) => branch_solutions(
            p,
            cover(p, st, item),
            candidates(p, st, item),
            chosen,
            candidates(p, st, item).len(),
        ),
    }
}

/// The solutions that the search finds below the first `k` of the
/// `candidates` of a node, starting with the last of them. `covered` is the
/// state of the node after its item was covered.
pub open spec fn branch_solutions(
    p: Problem,
    covered: SearchState,
    candidates: Seq<int>,
    chosen: Seq<int>,
    k: nat,
) -> Seq<Seq<int>>
    decreases primaries_left(p, covered), k + 1,
    via branch_solutions_decreases
{
    if k == 0 {
        Seq::empty()
    } else {
        let o = candidates[k - 1];
        solutions_from(p, commit(p, covered, o), chosen.push(o)) + branch_solutions(
            p,
            covered,
            candidates,
            chosen,
            (k - 1) as nat,
        )
    }
}

#[via_fn]
proof fn solutions_from_decreases(p: Problem, st: SearchState, chosen: Seq<int>) {
    if let Some(item) = next_item(p, st) {
        assert(is_next_item(p, st, item));
        lemma_count_set_drops(st.items, cover(p, st, item).items, p.num_primary, item);
    }
}

#[via_fn]
proof fn branch_solutions_decreases(
    p: Problem,
    covered: SearchState,
    candidates: Seq<int>,
    chosen: Seq<int>,
    k: nat,
) {
    if k > 0 {
        lemma_count_set_shrinks(
            covered.items,
            commit(p, covered, candidates[k - 1]).items,
            p.num_primary,
        );
    }
}

/// The number of nodes that the search visits at and below the node with
/// state `st`.
pub open spec fn nodes_from(p: Problem, st: SearchState) -> nat
    decreases primaries_left(p, st), 0nat,
    via nodes_from_decreases
{
    match next_item(p, st) {
        None => 1,
        Some(item) => 1 + branch_nodes(
            p,
            cover(p, st, item),
            candidates(p, st, item),
            candidates(p, st, item).len(),
        ),
    }
}

/// The number of nodes that the search visits below the first `k` of the
/// `candidates` of a node.
pub open spec fn branch_nodes(p: Problem, covered: SearchState, candidates: Seq<int>, k: nat) -> nat
    decreases primaries_left(p, covered), k + 1,
    via branch_nodes_decreases
{
    if k == 0 {
        0
    } else {
        nodes_from(p, commit(p, covered, candidates[k - 1])) + branch_nodes(
            p,
            covered,
            candidates,
            (k - 1) as nat,
        )
    }
}

#[via_fn]
proof fn nodes_from_decreases(p: Problem, st: SearchState) {
    if let Some(item) = next_item(p, st) {
        assert(is_next_item(p, st, item));
        lemma_count_set_drops(st.items, cover(p, st, item).items, p.num_primary, item);
    }
}

#[via_fn]
proof fn branch_nodes_decreases(p: Problem, covered: SearchState, candidates: Seq<int>, k: nat) {
    if k > 0 {
        lemma_count_set_shrinks(
            covered.items,
            commit(p, covered, candidates[k - 1]).items,
            p.num_primary,
        );
    }
}

/// Every solution of `p` that the search finds from its initial state, in
/// the order in which it reports them.
pub open spec fn all_solutions(p: Problem) -> Seq<Seq<int>> {
    solutions_from(p, SearchState::initial(p), Seq::empty())
}

} // verus!
