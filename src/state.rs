//! Placements of queens: row `i` holds a queen in column `state[i]`.
use vstd::prelude::*;

verus! {

/// Distance between two integers.
pub open spec fn dist(a: int, b: int) -> int {
    if a >= b {
        a - b
    } else {
        b - a
    }
}

/// The queens of rows `i` and `j` share a column or a diagonal.
pub open spec fn attacks(s: Seq<usize>, i: int, j: int) -> bool {
    s[i] == s[j] || dist(i, j) == dist(s[i] as int, s[j] as int)
}

/// Some pair of placed queens attack each other.
pub open spec fn has_conflict(s: Seq<usize>) -> bool {
    exists|i: int, j: int| 0 <= i < j < s.len() && #[trigger] attacks(s, i, j)
}

/// Every column of the placement lies on an `n`-wide board.
pub open spec fn on_board(s: Seq<usize>, n: nat) -> bool {
    forall|i: int| 0 <= i < s.len() ==> #[trigger] s[i] < n
}

/// A full placement of `n` queens on an `n`-wide board, no two attacking.
pub open spec fn is_solution(s: Seq<usize>, n: nat) -> bool {
    s.len() == n && on_board(s, n) && !has_conflict(s)
}

/// Distance between two columns.
pub fn abs_diff(a: usize, b: usize) -> (r: usize)
    ensures
        r == dist(a as int, b as int),
{
    if a >= b {
        a - b
    } else {
        b - a
    }
}

/// Whether the placement holds a queen on every one of the `n` rows.
pub fn is_complete(state: &Vec<usize>, n: usize) -> (r: bool)
    ensures
        r == (state@.len() == n),
{
    state.len() == n
}

/// Whether two queens of the placement share a column or a diagonal.
pub fn conflict_checker(state: &Vec<usize>) -> (r: bool)
    ensures
        r == has_conflict(state@),
{
    let len = state.len();
    let mut i: usize = 0;
    while i < len
        invariant
            len == state@.len(),
            i <= len,
            forall|a: int, b: int| 0 <= a < i && a < b < len ==> !#[trigger] attacks(state@, a, b),
        decreases len - i,
    {
        let mut j: usize = i + 1;
        while j < len
            invariant
                len == state@.len(),
                i < len,
                i < j <= len,
                forall|a: int, b: int| 0 <= a < i && a < b < len ==> !#[trigger] attacks(state@, a, b),
                forall|b: int| i < b < j ==> !#[trigger] attacks(state@, i as int, b),
            decreases len - j,
        {
            if state[i] == state[j] || j - i == abs_diff(state[i], state[j]) {
                assert(attacks(state@, i as int, j as int));
                assert(has_conflict(state@));
                return true;
            }
            j += 1;
        }
        i += 1;
    }
    proof {
        assert forall|a: int, b: int| 0 <= a < b < len implies !#[trigger] attacks(state@, a, b) by {
        }
    }
    false
}

/// The conflict check of the breadth- and depth-first searches: the same
/// test as `conflict_checker`.
pub fn conflict_checker_extra(state: &Vec<usize>) -> (r: bool)
    ensures
        r == has_conflict(state@),
{
    conflict_checker(state)
}

} // verus!
