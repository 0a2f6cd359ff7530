//! What every run of the search guarantees.
use vstd::prelude::*;
use crate::frontier::picked;
use crate::search::{
    exhausted_ok, found_ok, handled, lemma_solution_distinct, order_of, Search, Step, Strategy,
};
use crate::seeding::initial_entries;
use crate::state::{attacks, has_conflict, is_solution};

verus! {

/// Boards of 2 and 3 columns have no solution.
pub proof fn lemma_no_solution_small(n: nat)
    requires
        n == 2 || n == 3,
    ensures
        forall|s: Seq<usize>| !is_solution(s, n),
{
    assert forall|s: Seq<usize>| !is_solution(s, n) by {
        if is_solution(s, n) {
            assert(s[0] < n && s[1] < n);
            assert(!attacks(s, 0, 1));
            if n == 3 {
                assert(s[2] < n);
                assert(!attacks(s, 1, 2));
                assert(!attacks(s, 0, 2));
            }
        }
    }
}

/// A solution that a search returns on a board that has one is a full,
/// conflict-free placement on the board, with pairwise distinct columns.
pub proof fn lemma_returned_solution_valid(v: Seq<usize>, n: nat, strategy: Strategy)
    requires
        found_ok(v, n, strategy),
        exists|s: Seq<usize>| is_solution(s, n),
    ensures
        is_solution(v, n),
        v.len() == n,
        !has_conflict(v),
        forall|a: int, b: int| 0 <= a < b < v.len() ==> v[a] != v[b],
{
    if n == 2 {
        lemma_no_solution_small(n);
    }
    lemma_solution_distinct(v, n);
}

/// At every point of a search, no placement is both in the frontier and
/// closed, every closed placement was visited, so the visited set is at
/// least as large as the closed one. (Each step only adds to both sets.)
pub proof fn lemma_dedup_sound(s: &Search)
    requires
        s.inv(),
    ensures
        forall|k: int| 0 <= k < s.entries().len() ==> !s.closed().contains(#[trigger] s.entries()[k].0),
        s.closed().subset_of(s.visited()),
        s.closed().len() <= s.visited().len(),
{
    s.lemma_facts();
    vstd::set_lib::lemma_len_subset(s.closed(), s.visited());
}

/// On boards of 2 and 3 columns no strategy returns a solution, so every
/// run ends with an empty frontier and no solution.
pub proof fn lemma_small_boards_exhaust(n: nat, strategy: Strategy, v: Seq<usize>)
    requires
        n == 2 || n == 3,
    ensures
        !found_ok(v, n, strategy),
{
    lemma_no_solution_small(n);
    if found_ok(v, n, strategy) {
        assert(is_solution(v, n));
    }
}

/// On a board of one column, every strategy returns the single placement
/// `[0]`.
pub proof fn lemma_trivial_board(strategy: Strategy, r: Option<Seq<usize>>)
    requires
        r matches Some(v) ==> found_ok(v, 1, strategy),
        r is None ==> exhausted_ok(1, strategy),
    ensures
        r == Some(seq![0usize]),
{
    let one = seq![0usize];
    assert(is_solution(one, 1)) by {
        assert forall|a: int, b: int| 0 <= a < b < one.len() implies !#[trigger] attacks(one, a, b) by {}
    }
    if let Some(v) = r {
        assert(v[0] < 1);
        assert(v =~= one);
    }
}

/// On a board of one column, the first step of a new search (of any
/// strategy) already returns `[0]`.
pub proof fn lemma_trivial_board_first_step(o: Search, f: Search, i: int, r: Step)
    requires
        o.size() == 1,
        o.entries() == initial_entries(1, o.strategy()),
        picked(order_of(o.strategy()), o.entries(), i),
        handled(o, f, i, r),
    ensures
        r matches Step::Found(v) && v@ == seq![0usize],
{
    let p = o.entries()[i].0;
    assert(i == 0);
    assert(p == seq![0usize]);
    assert(!has_conflict(p)) by {
        assert forall|a: int, b: int| 0 <= a < b < p.len() implies !#[trigger] attacks(p, a, b) by {}
    }
}

} // verus!
