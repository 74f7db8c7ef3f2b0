//! The search reports every solution of the problem, and none twice.
use crate::bits::{
    is_set, lemma_count_set_drops, lemma_count_set_shrinks, lemma_positions_upto,
};
use crate::model::Problem;
use crate::search::{
    all_solutions, branch_solutions, candidates, commit, cover, handles, is_next_item,
    lemma_no_next_item, live_column, next_item, primaries_left, solutions_from, spares,
    SearchState,
};
use crate::soundness::{
    consistent, covers, gone_is_covered, keeps_clear, lemma_branch_consistent,
    lemma_initial_consistent,
};
use vstd::prelude::*;

verus! {

/// `a` and `b` hold the same options, in whatever order.
pub open spec fn same_options(a: Seq<int>, b: Seq<int>) -> bool {
    forall|o: int| a.contains(o) <==> b.contains(o)
}

/// What links a node of the search to a solution `sol` that lies below it:
/// every option chosen so far belongs to `sol`, and every other option of
/// `sol` is still available.
pub open spec fn leads_to(p: Problem, st: SearchState, chosen: Seq<int>, sol: Seq<int>) -> bool {
    &&& forall|j: int| 0 <= j < chosen.len() ==> sol.contains(#[trigger] chosen[j])
    &&& forall|a: int|
        0 <= a < sol.len() && !chosen.contains(#[trigger] sol[a]) ==> is_set(st.options, sol[a])
}

/// The solutions below one candidate of a node are among the solutions
/// below the node.
pub proof fn lemma_branch_holds(
    p: Problem,
    covered: SearchState,
    cands: Seq<int>,
    chosen: Seq<int>,
    n: nat,
    c: int,
    k: int,
) -> (at: int)
    requires
        0 <= c < n,
        0 <= k < solutions_from(p, commit(p, covered, cands[c]), chosen.push(cands[c])).len(),
    ensures
        0 <= at < branch_solutions(p, covered, cands, chosen, n).len(),
        branch_solutions(p, covered, cands, chosen, n)[at] == solutions_from(
            p,
            commit(p, covered, cands[c]),
            chosen.push(cands[c]),
        )[k],
    decreases n,
{
    let o = cands[n - 1];
    let first = solutions_from(p, commit(p, covered, o), chosen.push(o));
    let others = branch_solutions(p, covered, cands, chosen, (n - 1) as nat);
    assert(branch_solutions(p, covered, cands, chosen, n) == first + others);
    if c == n - 1 {
        k
    } else {
        let at = lemma_branch_holds(p, covered, cands, chosen, (n - 1) as nat, c, k);
        first.len() + at
    }
}

/// Where no primary item is available, the options chosen are all of the
/// solution that the node leads to.
proof fn lemma_leaf_is_whole(p: Problem, st: SearchState, chosen: Seq<int>, sol: Seq<int>)
    requires
        p.wf(),
        consistent(p, st, chosen),
        p.is_solution(sol),
        p.all_touch_primary(sol),
        leads_to(p, st, chosen, sol),
        next_item(p, st) is None,
    ensures
        same_options(chosen, sol),
{
    lemma_no_next_item(p, st);
    assert forall|o: int| sol.contains(o) implies chosen.contains(o) by {
        let a = choose|a: int| 0 <= a < sol.len() && sol[a] == o;
        assert(p.touches_primary(sol[a]));
        let q = choose|q: int| 0 <= q < p.num_primary && #[trigger] p.touches(sol[a], q);
        assert(p.is_primary(q) && !is_set(st.items, q));
        assert(gone_is_covered(p, st, chosen, q));
        let j = choose|j: int| covers(p, chosen, q, j);
        assert(sol.contains(chosen[j]));
        let b = choose|b: int| 0 <= b < sol.len() && sol[b] == chosen[j];
        if a < b {
            assert(!(p.touches(sol[a], q) && p.touches(sol[b], q)));
        } else if b < a {
            assert(!(p.touches(sol[b], q) && p.touches(sol[a], q)));
        }
    }
    assert forall|o: int| chosen.contains(o) implies sol.contains(o) by {
        let j = choose|j: int| 0 <= j < chosen.len() && chosen[j] == o;
        assert(sol.contains(chosen[j]));
    }
}

/// The option of `sol` that covers the item to branch on is a candidate,
/// and the node that it leads to leads to `sol` as well.
proof fn lemma_branch_towards(
    p: Problem,
    st: SearchState,
    chosen: Seq<int>,
    sol: Seq<int>,
    item: int,
) -> (c: int)
    requires
        p.wf(),
        consistent(p, st, chosen),
        p.is_solution(sol),
        leads_to(p, st, chosen, sol),
        is_next_item(p, st, item),
    ensures
        0 <= c < candidates(p, st, item).len(),
        is_set(st.options, candidates(p, st, item)[c]),
        p.touches(candidates(p, st, item)[c], item),
        leads_to(
            p,
            commit(p, cover(p, st, item), candidates(p, st, item)[c]),
            chosen.push(candidates(p, st, item)[c]),
            sol,
        ),
{
    let a = choose|a: int| 0 <= a < sol.len() && p.touches(#[trigger] sol[a], item);
    let o = sol[a];
    assert(!chosen.contains(o)) by {
        if chosen.contains(o) {
            let j = choose|j: int| 0 <= j < chosen.len() && chosen[j] == o;
            assert(keeps_clear(p, st, chosen, item, j));
        }
    }
    assert(is_set(st.options, o));
    let live = live_column(p, st, item);
    lemma_positions_upto(live, live.len());
    assert(is_set(live, o));
    let cands = candidates(p, st, item);
    assert(cands.contains(o));
    let c = choose|c: int| 0 <= c < cands.len() && cands[c] == o;
    let st1 = cover(p, st, item);
    let st2 = commit(p, st1, o);
    let ch2 = chosen.push(o);
    assert forall|j: int| 0 <= j < ch2.len() implies sol.contains(#[trigger] ch2[j]) by {
        if j < chosen.len() {
            assert(sol.contains(chosen[j]));
        }
    }
    assert forall|b: int| 0 <= b < sol.len() && !ch2.contains(#[trigger] sol[b]) implies is_set(
        st2.options,
        sol[b],
    ) by {
        let x = sol[b];
        assert(ch2[chosen.len() as int] == o);
        assert(x != o);
        assert(!chosen.contains(x)) by {
            if chosen.contains(x) {
                let j = choose|j: int| 0 <= j < chosen.len() && chosen[j] == x;
                assert(ch2[j] == x);
            }
        }
        assert(is_set(st.options, x));
        assert(a != b);
        lemma_two_of_a_solution(p, sol, a, b, item);
        assert(!p.touches(x, item));
        assert(is_set(st1.options, x));
        assert forall|i: int| spares(p, st1, o, x, i) by {
            if handles(p, st1, o, i) && p.touches(x, i) {
                lemma_two_of_a_solution(p, sol, a, b, i);
            }
        }
    }
    c
}

/// Two different entries of a solution touch no primary item in common,
/// and where they touch the same secondary item they give it the same color.
proof fn lemma_two_of_a_solution(p: Problem, sol: Seq<int>, a: int, b: int, i: int)
    requires
        p.is_solution(sol),
        0 <= a < sol.len(),
        0 <= b < sol.len(),
        a != b,
    ensures
        p.is_primary(i) ==> !(p.touches(sol[a], i) && p.touches(sol[b], i)),
        p.touches(sol[a], i) && p.touches(sol[b], i) ==> p.color(sol[a], i) is Some && p.color(
            sol[a],
            i,
        ) == p.color(sol[b], i),
{
    if p.is_primary(i) {
        if a < b {
            assert(!(p.touches(sol[a], i) && p.touches(sol[b], i)));
        } else {
            assert(!(p.touches(sol[b], i) && p.touches(sol[a], i)));
        }
    }
}

/// Below a node that leads to the solution `sol`, the search reports `sol`.
pub proof fn lemma_solutions_from_hold(
    p: Problem,
    st: SearchState,
    chosen: Seq<int>,
    sol: Seq<int>,
) -> (k: int)
    requires
        p.wf(),
        consistent(p, st, chosen),
        p.is_solution(sol),
        p.all_touch_primary(sol),
        leads_to(p, st, chosen, sol),
    ensures
        0 <= k < solutions_from(p, st, chosen).len(),
        same_options(solutions_from(p, st, chosen)[k], sol),
    decreases primaries_left(p, st),
{
    match next_item(p, st) {
        None => {
            lemma_leaf_is_whole(p, st, chosen, sol);
            assert(solutions_from(p, st, chosen) =~= seq![chosen]);
            0
        },
        Some(item) => {
            assert(is_next_item(p, st, item));
            let covered = cover(p, st, item);
            let cands = candidates(p, st, item);
            let c = lemma_branch_towards(p, st, chosen, sol, item);
            let o = cands[c];
            lemma_branch_consistent(p, st, chosen, item, o);
            lemma_count_set_drops(st.items, covered.items, p.num_primary, item);
            lemma_count_set_shrinks(covered.items, commit(p, covered, o).items, p.num_primary);
            let k = lemma_solutions_from_hold(p, commit(p, covered, o), chosen.push(o), sol);
            assert(solutions_from(p, st, chosen) == branch_solutions(
                p,
                covered,
                cands,
                chosen,
                cands.len(),
            ));
            lemma_branch_holds(p, covered, cands, chosen, cands.len(), c, k)
        },
    }
}

/// The search is exhaustive: it reports every solution of which each option
/// touches a primary item, with its options in some order.
pub proof fn lemma_search_is_exhaustive(p: Problem, sol: Seq<int>)
    requires
        p.wf(),
        p.is_solution(sol),
        p.all_touch_primary(sol),
    ensures
        exists|k: int|
            0 <= k < all_solutions(p).len() && same_options(#[trigger] all_solutions(p)[k], sol),
{
    lemma_initial_consistent(p);
    let st = SearchState::initial(p);
    assert(leads_to(p, st, Seq::empty(), sol)) by {
        assert forall|a: int| 0 <= a < sol.len() implies is_set(st.options, #[trigger] sol[a]) by {
            assert(p.is_option(sol[a]));
        }
    }
    let k = lemma_solutions_from_hold(p, st, Seq::empty(), sol);
    assert(same_options(all_solutions(p)[k], sol));
}

/// Every option chosen so far is no longer available.
pub open spec fn chosen_are_hidden(st: SearchState, chosen: Seq<int>) -> bool {
    forall|j: int| 0 <= j < chosen.len() ==> !is_set(st.options, #[trigger] chosen[j])
}

/// What a solution `s` found below a node looks like: it starts with the
/// options chosen on the way to the node, and goes on with options that are
/// available at the node.
pub open spec fn grows_from(st: SearchState, chosen: Seq<int>, s: Seq<int>) -> bool {
    &&& chosen.len() <= s.len()
    &&& s.take(chosen.len() as int) == chosen
    &&& forall|j: int| chosen.len() <= j < s.len() ==> is_set(st.options, #[trigger] s[j])
}

/// A solution found below a node grows from the node.
pub proof fn lemma_solution_grows(p: Problem, st: SearchState, chosen: Seq<int>, k: int)
    requires
        0 <= k < solutions_from(p, st, chosen).len(),
    ensures
        grows_from(st, chosen, solutions_from(p, st, chosen)[k]),
    decreases primaries_left(p, st), 0nat,
{
    match next_item(p, st) {
        None => {
            assert(solutions_from(p, st, chosen) =~= seq![chosen]);
            assert(chosen.take(chosen.len() as int) =~= chosen);
        },
        Some(item) => {
            assert(is_next_item(p, st, item));
            let covered = cover(p, st, item);
            let cands = candidates(p, st, item);
            lemma_count_set_drops(st.items, covered.items, p.num_primary, item);
            assert(solutions_from(p, st, chosen) == branch_solutions(
                p,
                covered,
                cands,
                chosen,
                cands.len(),
            ));
            lemma_branch_grows(p, st, chosen, item, cands.len(), k);
        },
    }
}

/// A solution found below the first `n` candidates of a node grows from the
/// node, by one of these candidates; what comes after the candidate is
/// available in the state that the commit to it leaves.
pub proof fn lemma_branch_grows(
    p: Problem,
    st: SearchState,
    chosen: Seq<int>,
    item: int,
    n: nat,
    k: int,
) -> (c: int)
    requires
        n <= candidates(p, st, item).len(),
        0 <= k < branch_solutions(p, cover(p, st, item), candidates(p, st, item), chosen, n).len(),
    ensures
        0 <= c < n,
        ({
            let cands = candidates(p, st, item);
            let s = branch_solutions(p, cover(p, st, item), cands, chosen, n)[k];
            &&& grows_from(st, chosen, s)
            &&& grows_from(commit(p, cover(p, st, item), cands[c]), chosen.push(cands[c]), s)
        }),
    decreases primaries_left(p, cover(p, st, item)), n + 1,
{
    let covered = cover(p, st, item);
    let cands = candidates(p, st, item);
    let o = cands[n - 1];
    let child = commit(p, covered, o);
    let first = solutions_from(p, child, chosen.push(o));
    let others = branch_solutions(p, covered, cands, chosen, (n - 1) as nat);
    let both = branch_solutions(p, covered, cands, chosen, n);
    assert(both == first + others);
    if k < first.len() {
        lemma_count_set_shrinks(covered.items, child.items, p.num_primary);
        lemma_solution_grows(p, child, chosen.push(o), k);
        let s = both[k];
        assert(s == first[k]);
        let live = live_column(p, st, item);
        lemma_positions_upto(live, live.len());
        assert(is_set(live, o));
        assert(s[chosen.len() as int] == chosen.push(o)[chosen.len() as int]);
        assert(s.take(chosen.len() as int) =~= chosen) by {
            assert(s.take(chosen.len() as int + 1) == chosen.push(o));
            assert forall|j: int| 0 <= j < chosen.len() implies s[j] == chosen[j] by {
                assert(s.take(chosen.len() as int + 1)[j] == chosen.push(o)[j]);
            }
        }
        assert forall|j: int| chosen.len() <= j < s.len() implies is_set(
            st.options,
            #[trigger] s[j],
        ) by {
            if j > chosen.len() {
                assert(is_set(child.options, s[j]));
            }
        }
        n - 1
    } else {
        let c = lemma_branch_grows(p, st, chosen, item, (n - 1) as nat, k - first.len());
        assert(both[k] == others[k - first.len()]);
        c
    }
}

/// Two solutions found below different candidates of a node do not hold the
/// same options: the candidate of the one is missing from the other.
proof fn lemma_candidates_part(
    p: Problem,
    st: SearchState,
    chosen: Seq<int>,
    item: int,
    c1: int,
    c2: int,
    s1: Seq<int>,
    s2: Seq<int>,
)
    requires
        chosen_are_hidden(st, chosen),
        0 <= c1 < candidates(p, st, item).len(),
        0 <= c2 < candidates(p, st, item).len(),
        c1 != c2,
        grows_from(
            commit(p, cover(p, st, item), candidates(p, st, item)[c1]),
            chosen.push(candidates(p, st, item)[c1]),
            s1,
        ),
        grows_from(
            commit(p, cover(p, st, item), candidates(p, st, item)[c2]),
            chosen.push(candidates(p, st, item)[c2]),
            s2,
        ),
    ensures
        !same_options(s1, s2),
{
    let cands = candidates(p, st, item);
    let o1 = cands[c1];
    let o2 = cands[c2];
    let live = live_column(p, st, item);
    lemma_positions_upto(live, live.len());
    assert(is_set(live, o1) && is_set(live, o2));
    assert(o1 != o2) by {
        if c1 < c2 {
            assert(cands[c1] < cands[c2]);
        } else {
            assert(cands[c2] < cands[c1]);
        }
    }
    let at = chosen.len() as int;
    assert(s2[at] == o2) by {
        assert(s2.take(at + 1)[at] == chosen.push(o2)[at]);
    }
    assert(s2.contains(o2));
    assert(!s1.contains(o2)) by {
        if s1.contains(o2) {
            let j = choose|j: int| 0 <= j < s1.len() && s1[j] == o2;
            assert(s1.take(at + 1) == chosen.push(o1));
            if j < at {
                assert(s1.take(at + 1)[j] == chosen.push(o1)[j]);
                assert(!is_set(st.options, chosen[j]));
            } else if j == at {
                assert(s1.take(at + 1)[at] == chosen.push(o1)[at]);
            } else {
                assert(is_set(commit(p, cover(p, st, item), o1).options, s1[j]));
            }
        }
    }
}

/// Committing to a candidate keeps the options chosen hidden, and hides the
/// candidate.
proof fn lemma_hidden_after_branch(p: Problem, st: SearchState, chosen: Seq<int>, item: int, c: int)
    requires
        chosen_are_hidden(st, chosen),
        0 <= c < candidates(p, st, item).len(),
    ensures
        chosen_are_hidden(
            commit(p, cover(p, st, item), candidates(p, st, item)[c]),
            chosen.push(candidates(p, st, item)[c]),
        ),
{
    let o = candidates(p, st, item)[c];
    let live = live_column(p, st, item);
    lemma_positions_upto(live, live.len());
    assert(is_set(live, o));
    let st2 = commit(p, cover(p, st, item), o);
    let ch2 = chosen.push(o);
    assert forall|j: int| 0 <= j < ch2.len() implies !is_set(st2.options, #[trigger] ch2[j]) by {
        if j < chosen.len() {
            assert(!is_set(st.options, chosen[j]));
        }
    }
}

/// No two of the solutions found below a node hold the same options.
pub proof fn lemma_solutions_differ(
    p: Problem,
    st: SearchState,
    chosen: Seq<int>,
    k1: int,
    k2: int,
)
    requires
        chosen_are_hidden(st, chosen),
        0 <= k1 < k2 < solutions_from(p, st, chosen).len(),
    ensures
        !same_options(solutions_from(p, st, chosen)[k1], solutions_from(p, st, chosen)[k2]),
    decreases primaries_left(p, st), 0nat,
{
    match next_item(p, st) {
        None => {
            assert(solutions_from(p, st, chosen) =~= seq![chosen]);
        },
        Some(item) => {
            assert(is_next_item(p, st, item));
            let covered = cover(p, st, item);
            let cands = candidates(p, st, item);
            lemma_count_set_drops(st.items, covered.items, p.num_primary, item);
            assert(solutions_from(p, st, chosen) == branch_solutions(
                p,
                covered,
                cands,
                chosen,
                cands.len(),
            ));
            lemma_branch_differ(p, st, chosen, item, cands.len(), k1, k2);
        },
    }
}

/// No two of the solutions found below the first `n` candidates of a node
/// hold the same options.
pub proof fn lemma_branch_differ(
    p: Problem,
    st: SearchState,
    chosen: Seq<int>,
    item: int,
    n: nat,
    k1: int,
    k2: int,
)
    requires
        chosen_are_hidden(st, chosen),
        n <= candidates(p, st, item).len(),
        0 <= k1 < k2 < branch_solutions(
            p,
            cover(p, st, item),
            candidates(p, st, item),
            chosen,
            n,
        ).len(),
    ensures
        !same_options(
            branch_solutions(p, cover(p, st, item), candidates(p, st, item), chosen, n)[k1],
            branch_solutions(p, cover(p, st, item), candidates(p, st, item), chosen, n)[k2],
        ),
    decreases primaries_left(p, cover(p, st, item)), n + 1,
{
    let covered = cover(p, st, item);
    let cands = candidates(p, st, item);
    let o = cands[n - 1];
    let child = commit(p, covered, o);
    let first = solutions_from(p, child, chosen.push(o));
    let others = branch_solutions(p, covered, cands, chosen, (n - 1) as nat);
    let both = branch_solutions(p, covered, cands, chosen, n);
    assert(both == first + others);
    if k2 < first.len() {
        lemma_count_set_shrinks(covered.items, child.items, p.num_primary);
        lemma_hidden_after_branch(p, st, chosen, item, n - 1);
        lemma_solutions_differ(p, child, chosen.push(o), k1, k2);
        assert(both[k1] == first[k1] && both[k2] == first[k2]);
    } else if k1 >= first.len() {
        lemma_branch_differ(p, st, chosen, item, (n - 1) as nat, k1 - first.len(), k2 - first.len());
        assert(both[k1] == others[k1 - first.len()] && both[k2] == others[k2 - first.len()]);
    } else {
        lemma_count_set_shrinks(covered.items, child.items, p.num_primary);
        lemma_solution_grows(p, child, chosen.push(o), k1);
        let c2 = lemma_branch_grows(p, st, chosen, item, (n - 1) as nat, k2 - first.len());
        assert(both[k1] == first[k1] && both[k2] == others[k2 - first.len()]);
        lemma_candidates_part(p, st, chosen, item, n - 1, c2, both[k1], both[k2]);
    }
}

/// The search repeats nothing: no two of the solutions that it reports hold
/// the same options.
pub proof fn lemma_search_repeats_nothing(p: Problem, k1: int, k2: int)
    requires
        0 <= k1 < all_solutions(p).len(),
        0 <= k2 < all_solutions(p).len(),
        k1 != k2,
    ensures
        !same_options(all_solutions(p)[k1], all_solutions(p)[k2]),
{
    let st = SearchState::initial(p);
    if k1 < k2 {
        lemma_solutions_differ(p, st, Seq::empty(), k1, k2);
    } else {
        lemma_solutions_differ(p, st, Seq::empty(), k2, k1);
    }
}

/// `sols` holds every solution of `p` of which each option touches a primary
/// item, with its options in some order.
pub open spec fn holds_all(p: Problem, sols: Seq<Seq<int>>) -> bool {
    forall|sol: Seq<int>| #[trigger]
        p.is_solution(sol) && p.all_touch_primary(sol) ==> exists|k: int|
            0 <= k < sols.len() && same_options(#[trigger] sols[k], sol)
}

/// The solutions that the search reports hold every solution of the
/// problem.
pub proof fn lemma_all_solutions_hold_all(p: Problem)
    requires
        p.wf(),
    ensures
        holds_all(p, all_solutions(p)),
{
    assert forall|sol: Seq<int>| #[trigger]
        p.is_solution(sol) && p.all_touch_primary(sol) implies exists|k: int|
        0 <= k < all_solutions(p).len() && same_options(#[trigger] all_solutions(p)[k], sol) by {
        lemma_search_is_exhaustive(p, sol);
    }
}

/// Where the search reports exactly one solution, the problem has no other:
/// every solution of which each option touches a primary item holds the
/// options of the one reported.
pub proof fn lemma_one_is_the_only_one(p: Problem, sol: Seq<int>)
    requires
        p.wf(),
        all_solutions(p).len() == 1,
        p.is_solution(sol),
        p.all_touch_primary(sol),
    ensures
        same_options(all_solutions(p)[0], sol),
{
    lemma_search_is_exhaustive(p, sol);
}

/// Where the search reports no solution, the problem has none of which each
/// option touches a primary item.
pub proof fn lemma_none_found_means_none(p: Problem, sol: Seq<int>)
    requires
        p.wf(),
        all_solutions(p).len() == 0,
    ensures
        !(p.is_solution(sol) && p.all_touch_primary(sol)),
{
    if p.is_solution(sol) && p.all_touch_primary(sol) {
        lemma_search_is_exhaustive(p, sol);
    }
}

} // verus!
