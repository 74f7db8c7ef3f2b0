//! Every solution that the search reports solves the problem.
use crate::bits::{
    is_set, lemma_count_set_drops, lemma_count_set_shrinks, lemma_positions_upto,
};
use crate::model::Problem;
use crate::search::{
    all_solutions, branch_solutions, candidates, commit, cover, handles, is_next_item,
    lemma_no_next_item, live_column, next_item, primaries_left, solutions_from, spares,
    SearchState,
};
use vstd::prelude::*;

verus! {

/// Where options `a` and `b` both touch item `i`, both give it a color, and
/// the same one.
pub open spec fn agree(p: Problem, a: int, b: int, i: int) -> bool {
    p.touches(a, i) && p.touches(b, i) ==> p.color(a, i) is Some && p.color(a, i) == p.color(
        b,
        i,
    )
}

/// If item `i` is available, entry `j` of `chosen` does not touch it.
pub open spec fn keeps_clear(p: Problem, st: SearchState, chosen: Seq<int>, i: int, j: int) -> bool {
    is_set(st.items, i) && 0 <= j < chosen.len() ==> !p.touches(chosen[j], i)
}

/// Entry `j` of `chosen` touches item `i`.
pub open spec fn covers(p: Problem, chosen: Seq<int>, i: int, j: int) -> bool {
    0 <= j < chosen.len() && p.touches(chosen[j], i)
}

/// If `i` is a primary item that is not available, some entry of `chosen`
/// touches it.
pub open spec fn gone_is_covered(p: Problem, st: SearchState, chosen: Seq<int>, i: int) -> bool {
    p.is_primary(i) && !is_set(st.items, i) ==> exists|j: int| covers(p, chosen, i, j)
}

/// If option `x` is available, it agrees with entry `j` of `chosen` on item
/// `i`.
pub open spec fn open_agrees(
    p: Problem,
    st: SearchState,
    chosen: Seq<int>,
    x: int,
    j: int,
    i: int,
) -> bool {
    is_set(st.options, x) && 0 <= j < chosen.len() ==> agree(p, x, chosen[j], i)
}

/// Entries `j` and `k` of `chosen`, if they are two, agree on item `i`.
pub open spec fn chosen_agree(p: Problem, chosen: Seq<int>, j: int, k: int, i: int) -> bool {
    0 <= j < chosen.len() && 0 <= k < chosen.len() && j != k ==> agree(
        p,
        chosen[j],
        chosen[k],
        i,
    )
}

/// If item `i` is not available, the available options `x` and `y` agree on
/// it.
pub open spec fn settled(p: Problem, st: SearchState, x: int, y: int, i: int) -> bool {
    !is_set(st.items, i) && is_set(st.options, x) && is_set(st.options, y) ==> agree(p, x, y, i)
}

/// What holds of the state `st` and the options `chosen` at every node of a
/// search that starts in the initial state.
pub open spec fn consistent(p: Problem, st: SearchState, chosen: Seq<int>) -> bool {
    &&& st.fits(p)
    &&& p.are_options(chosen)
    &&& p.all_touch_primary(chosen)
    &&& forall|i: int, j: int| #[trigger] keeps_clear(p, st, chosen, i, j)
    &&& forall|i: int| #[trigger] gone_is_covered(p, st, chosen, i)
    &&& forall|x: int, j: int, i: int| #[trigger] open_agrees(p, st, chosen, x, j, i)
    &&& forall|j: int, k: int, i: int| #[trigger] chosen_agree(p, chosen, j, k, i)
    &&& forall|i: int| #[trigger] st.colors.contains_key(i) ==> !is_set(st.items, i)
    &&& forall|x: int, y: int, i: int| #[trigger] settled(p, st, x, y, i)
}

/// The initial state, with nothing chosen, is consistent.
pub proof fn lemma_initial_consistent(p: Problem)
    requires
        p.wf(),
    ensures
        consistent(p, SearchState::initial(p), Seq::empty()),
{
    let st = SearchState::initial(p);
    let chosen = Seq::<int>::empty();
    assert forall|i: int| #[trigger] gone_is_covered(p, st, chosen, i) by {
        if p.is_primary(i) {
            assert(is_set(st.items, i));
        }
    }
    assert forall|x: int, y: int, i: int| #[trigger] settled(p, st, x, y, i) by {
        if !is_set(st.items, i) && p.touches(x, i) {
            assert(p.options[x].wf(p.num_items));
        }
    }
}

/// Branching keeps the state consistent: cover the item to branch on,
/// commit to one of its candidates, and add the candidate to the options
/// chosen.
pub proof fn lemma_branch_consistent(
    p: Problem,
    st: SearchState,
    chosen: Seq<int>,
    item: int,
    o: int,
)
    requires
        p.wf(),
        consistent(p, st, chosen),
        p.is_primary(item),
        is_set(st.items, item),
        is_set(st.options, o),
        p.touches(o, item),
    ensures
        consistent(p, commit(p, cover(p, st, item), o), chosen.push(o)),
{
    let st1 = cover(p, st, item);
    let st2 = commit(p, st1, o);
    let ch2 = chosen.push(o);
    assert(p.options[o].wf(p.num_items));
    assert forall|j: int| 0 <= j < ch2.len() implies p.is_option(#[trigger] ch2[j]) by {
        if j < chosen.len() {
            assert(p.is_option(chosen[j]));
        }
    }
    assert forall|j: int| 0 <= j < ch2.len() implies p.touches_primary(#[trigger] ch2[j]) by {
        if j < chosen.len() {
            assert(p.touches_primary(chosen[j]));
        } else {
            assert(p.is_primary(item) && p.touches(ch2[j], item));
        }
    }
    assert forall|i: int, j: int| #[trigger] keeps_clear(p, st2, ch2, i, j) by {
        if is_set(st2.items, i) && 0 <= j < chosen.len() {
            assert(keeps_clear(p, st, chosen, i, j));
        }
    }
    assert forall|i: int| #[trigger] gone_is_covered(p, st2, ch2, i) by {
        if p.is_primary(i) && !is_set(st2.items, i) {
            if is_set(st.items, i) {
                assert(covers(p, ch2, i, chosen.len() as int));
            } else {
                assert(gone_is_covered(p, st, chosen, i));
                let j = choose|j: int| covers(p, chosen, i, j);
                assert(covers(p, ch2, i, j));
            }
        }
    }
    assert forall|x: int, j: int, i: int| #[trigger] open_agrees(p, st2, ch2, x, j, i) by {
        if is_set(st2.options, x) && 0 <= j < ch2.len() && p.touches(x, i) && p.touches(
            ch2[j],
            i,
        ) {
            assert(is_set(st1.options, x));
            assert(is_set(st.options, x));
            if j < chosen.len() {
                assert(open_agrees(p, st, chosen, x, j, i));
            } else {
                lemma_survivor_agrees(p, st, chosen, item, o, x, i);
            }
        }
    }
    assert forall|j: int, k: int, i: int| #[trigger] chosen_agree(p, ch2, j, k, i) by {
        if 0 <= j < ch2.len() && 0 <= k < ch2.len() && j != k {
            if j < chosen.len() && k < chosen.len() {
                assert(chosen_agree(p, chosen, j, k, i));
            } else if j < chosen.len() {
                assert(open_agrees(p, st, chosen, o, j, i));
            } else {
                assert(open_agrees(p, st, chosen, o, k, i));
            }
        }
    }
    assert forall|i: int| #[trigger] st2.colors.contains_key(i) implies !is_set(st2.items, i) by {
        if st.colors.contains_key(i) {
            assert(!is_set(st.items, i));
        }
    }
    assert forall|x: int, y: int, i: int| #[trigger] settled(p, st2, x, y, i) by {
        if !is_set(st2.items, i) && is_set(st2.options, x) && is_set(st2.options, y) && p.touches(
            x,
            i,
        ) && p.touches(y, i) {
            assert(is_set(st1.options, x) && is_set(st1.options, y));
            assert(is_set(st.options, x) && is_set(st.options, y));
            assert(p.options[x].wf(p.num_items));
            lemma_survivor_agrees(p, st, chosen, item, o, x, i);
            lemma_survivor_agrees(p, st, chosen, item, o, y, i);
            if !is_set(st.items, i) {
                assert(settled(p, st, x, y, i));
            }
        }
    }
}

/// An option that is still available after a commit to `o` agrees with `o`.
proof fn lemma_survivor_agrees(
    p: Problem,
    st: SearchState,
    chosen: Seq<int>,
    item: int,
    o: int,
    x: int,
    i: int,
)
    requires
        p.wf(),
        consistent(p, st, chosen),
        is_set(st.items, item),
        is_set(st.options, o),
        p.touches(o, item),
        is_set(commit(p, cover(p, st, item), o).options, x),
    ensures
        agree(p, x, o, i),
        agree(p, o, x, i),
        is_set(st.items, i) && i != item && p.touches(o, i) && p.touches(x, i) ==> p.color(x, i)
            == p.color(o, i),
{
    let st1 = cover(p, st, item);
    if p.touches(x, i) && p.touches(o, i) {
        assert(is_set(st1.options, x));
        assert(p.options[o].wf(p.num_items));
        if i == item {
            assert(!p.touches(x, item));
        } else if is_set(st.items, i) {
            assert(is_set(st1.items, i));
            assert(handles(p, st1, o, i));
            assert(spares(p, st1, o, x, i));
            if st.colors.contains_key(i) {
                assert(!is_set(st.items, i));
            }
        } else {
            assert(settled(p, st, x, o, i));
            assert(settled(p, st, o, x, i));
        }
    }
}

/// What holds of every set of options that the search reports: it touches
/// every primary item, it colors the secondary items consistently, and each
/// of its options touches a primary item. Where no option gives a primary
/// item a color, it touches no primary item twice, and so solves the
/// problem.
pub open spec fn is_sound(p: Problem, chosen: Seq<int>) -> bool {
    &&& p.covers_consistently(chosen)
    &&& p.all_touch_primary(chosen)
    &&& p.primary_uncolored() ==> p.is_solution(chosen)
}

/// Where the state is consistent and no primary item is available, the
/// options chosen are sound.
pub proof fn lemma_leaf_is_sound(p: Problem, st: SearchState, chosen: Seq<int>)
    requires
        p.wf(),
        consistent(p, st, chosen),
        next_item(p, st) is None,
    ensures
        is_sound(p, chosen),
{
    lemma_no_next_item(p, st);
    assert forall|i: int| #[trigger] p.is_primary(i) implies exists|j: int|
        0 <= j < chosen.len() && p.touches(#[trigger] chosen[j], i) by {
        assert(gone_is_covered(p, st, chosen, i));
        let j = choose|j: int| covers(p, chosen, i, j);
        assert(0 <= j < chosen.len() && p.touches(chosen[j], i));
    }
    assert forall|i: int, j: int, k: int|
        !p.is_primary(i) && 0 <= j < chosen.len() && 0 <= k < chosen.len() && j != k && p.touches(
            chosen[j],
            i,
        ) && p.touches(chosen[k], i) implies (#[trigger] p.color(chosen[j], i)) is Some && p.color(
        chosen[j],
        i,
    ) == #[trigger] p.color(chosen[k], i) by {
        assert(chosen_agree(p, chosen, j, k, i));
    }
    if p.primary_uncolored() {
        assert forall|i: int, j: int, k: int|
            p.is_primary(i) && 0 <= j < k < chosen.len() implies !(p.touches(
            #[trigger] chosen[j],
            i,
        ) && #[trigger] p.touches(chosen[k], i)) by {
            assert(chosen_agree(p, chosen, j, k, i));
            assert(p.is_option(chosen[j]));
            assert(p.color(chosen[j], i) is None);
        }
    }
}

/// Every set of options that the search reports below a consistent node is
/// sound.
pub proof fn lemma_solutions_from_sound(p: Problem, st: SearchState, chosen: Seq<int>)
    requires
        p.wf(),
        consistent(p, st, chosen),
    ensures
        forall|k: int|
            0 <= k < solutions_from(p, st, chosen).len() ==> is_sound(
                p,
                #[trigger] solutions_from(p, st, chosen)[k],
            ),
    decreases primaries_left(p, st), 0nat,
{
    match next_item(p, st) {
        None => {
            lemma_leaf_is_sound(p, st, chosen);
            assert(solutions_from(p, st, chosen) =~= seq![chosen]);
        },
        Some(item) => {
            assert(is_next_item(p, st, item));
            lemma_count_set_drops(st.items, cover(p, st, item).items, p.num_primary, item);
            lemma_branch_sound(p, st, chosen, item, candidates(p, st, item).len());
            assert(solutions_from(p, st, chosen) == branch_solutions(
                p,
                cover(p, st, item),
                candidates(p, st, item),
                chosen,
                candidates(p, st, item).len(),
            ));
        },
    }
}

/// Every set of options that the search reports below the first `k`
/// candidates of a consistent node is sound.
pub proof fn lemma_branch_sound(p: Problem, st: SearchState, chosen: Seq<int>, item: int, k: nat)
    requires
        p.wf(),
        consistent(p, st, chosen),
        p.is_primary(item),
        is_set(st.items, item),
        k <= candidates(p, st, item).len(),
    ensures
        forall|n: int|
            0 <= n < branch_solutions(
                p,
                cover(p, st, item),
                candidates(p, st, item),
                chosen,
                k,
            ).len() ==> is_sound(
                p,
                #[trigger] branch_solutions(
                    p,
                    cover(p, st, item),
                    candidates(p, st, item),
                    chosen,
                    k,
                )[n],
            ),
    decreases primaries_left(p, cover(p, st, item)), k + 1,
{
    if k > 0 {
        let covered = cover(p, st, item);
        let cands = candidates(p, st, item);
        let o = cands[k - 1];
        let live = live_column(p, st, item);
        lemma_positions_upto(live, live.len());
        assert(is_set(live, o));
        lemma_branch_consistent(p, st, chosen, item, o);
        lemma_count_set_shrinks(covered.items, commit(p, covered, o).items, p.num_primary);
        lemma_solutions_from_sound(p, commit(p, covered, o), chosen.push(o));
        lemma_branch_sound(p, st, chosen, item, (k - 1) as nat);
        let first = solutions_from(p, commit(p, covered, o), chosen.push(o));
        let others = branch_solutions(p, covered, cands, chosen, (k - 1) as nat);
        let both = branch_solutions(p, covered, cands, chosen, k);
        assert(both == first + others);
        assert forall|n: int| 0 <= n < both.len() implies is_sound(p, #[trigger] both[n]) by {
            if n < first.len() {
                assert(both[n] == first[n]);
            } else {
                assert(both[n] == others[n - first.len()]);
            }
        }
    }
}

/// Every set of options that the search reports touches each primary item
/// and colors the secondary items consistently, and each of its options
/// touches a primary item. Where no option gives a primary item a color, it
/// touches each primary item exactly once.
pub proof fn lemma_search_is_sound(p: Problem)
    requires
        p.wf(),
    ensures
        forall|k: int|
            0 <= k < all_solutions(p).len() ==> is_sound(p, #[trigger] all_solutions(p)[k]),
{
    lemma_initial_consistent(p);
    lemma_solutions_from_sound(p, SearchState::initial(p), Seq::empty());
}

} // verus!
