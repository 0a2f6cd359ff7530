//! Scores of partial placements: lower is more promising.
use vstd::prelude::*;
use crate::state::{abs_diff, attacks, dist, has_conflict};

verus! {

/// Attacking pairs `(i, k)` with `i < k < j`.
pub open spec fn row_conflicts(s: Seq<usize>, i: int, j: int) -> nat
    decreases j - i,
{
    if j <= i + 1 {
        0
    } else {
        row_conflicts(s, i, j - 1) + if attacks(s, i, j - 1) {
            1nat
        } else {
            0nat
        }
    }
}

/// Attacking pairs whose first queen stands in one of the rows before `i`.
pub open spec fn conflicts_before(s: Seq<usize>, i: int) -> nat
    decreases i,
{
    if i <= 0 {
        0
    } else {
        conflicts_before(s, i - 1) + row_conflicts(s, i - 1, s.len() as int)
    }
}

/// Number of attacking pairs of the placement.
pub open spec fn conflict_count(s: Seq<usize>) -> nat {
    conflicts_before(s, s.len() as int)
}

/// Column 0 or column `n - 1`.
pub open spec fn is_corner(c: usize, n: nat) -> bool {
    c == 0 || c + 1 == n
}

/// 0 when the placement is anchored in corner columns (its first and last
/// column for a full placement, its first column otherwise), else 1.
pub open spec fn boundary_bonus(s: Seq<usize>, n: nat) -> nat {
    if s.len() == n {
        if is_corner(s[0], n) && is_corner(s[n - 1], n) {
            0
        } else {
            1
        }
    } else if is_corner(s[0], n) {
        0
    } else {
        1
    }
}

/// The boundary bonus, plus 1 when some pair of queens attack each other.
pub open spec fn boundary_score(s: Seq<usize>, n: nat) -> nat {
    boundary_bonus(s, n) + if conflict_count(s) == 0 {
        0nat
    } else {
        1nat
    }
}

/// Rows `i` and `j` are a Manhattan distance of exactly 3 apart.
pub open spec fn knight_step(s: Seq<usize>, i: int, j: int) -> bool {
    (j - i) + dist(s[i] as int, s[j] as int) == 3
}

/// End (exclusive) of the window of rows that row `i` is compared with.
pub open spec fn window_end(s: Seq<usize>, i: int) -> int {
    if i + 4 < s.len() {
        i + 4
    } else {
        s.len() as int
    }
}

/// Number of rows that row `i` is compared with.
pub open spec fn window_size(s: Seq<usize>, i: int) -> nat {
    if window_end(s, i) > i + 1 {
        (window_end(s, i) - i - 1) as nat
    } else {
        0
    }
}

/// Rows `k` with `i < k < j` at Manhattan distance 3 from row `i`.
pub open spec fn window_hits(s: Seq<usize>, i: int, j: int) -> nat
    decreases j - i,
{
    if j <= i + 1 {
        0
    } else {
        window_hits(s, i, j - 1) + if knight_step(s, i, j - 1) {
            1nat
        } else {
            0nat
        }
    }
}

/// Pairs compared for the rows before `i`.
pub open spec fn steps_before(s: Seq<usize>, i: int) -> nat
    decreases i,
{
    if i <= 0 {
        0
    } else {
        steps_before(s, i - 1) + window_size(s, i - 1)
    }
}

/// Pairs at Manhattan distance 3 found for the rows before `i`.
pub open spec fn hits_before(s: Seq<usize>, i: int) -> nat
    decreases i,
{
    if i <= 0 {
        0
    } else {
        hits_before(s, i - 1) + window_hits(s, i - 1, window_end(s, i - 1))
    }
}

/// Pairs compared, plus rows still empty, minus pairs at distance 3.
pub open spec fn manhattan_score(s: Seq<usize>, n: nat) -> int {
    steps_before(s, s.len() as int) + (n - s.len()) - hits_before(s, s.len() as int)
}

/// Counts the attacking pairs of queens (the second argument is unused).
pub fn heuristic1(state: &[usize], _size: usize) -> (r: usize)
    requires
        state@.len() * state@.len() <= usize::MAX,
    ensures
        r == conflict_count(state@),
{
    let len = state.len();
    let mut h: usize = 0;
    let mut i: usize = 0;
    while i < len
        invariant
            len == state@.len(),
            len * len <= usize::MAX,
            i <= len,
            h == conflicts_before(state@, i as int),
            h <= i * len,
        decreases len - i,
    {
        let mut j: usize = i + 1;
        while j < len
            invariant
                len == state@.len(),
                len * len <= usize::MAX,
                i < len,
                i < j <= len,
                h == conflicts_before(state@, i as int) + row_conflicts(state@, i as int, j as int),
                h <= i * len + j,
            decreases len - j,
        {
            if state[i] == state[j] || j - i == abs_diff(state[i], state[j]) {
                assert(i * len + j + 1 <= len * len) by (nonlinear_arith)
                    requires
                        i < len,
                        j < len,
                ;
                h += 1;
            }
            j += 1;
        }
        assert(i * len + len == (i + 1) * len) by (nonlinear_arith);
        i += 1;
    }
    h
}

/// Attacking pairs count for 1; on top of that, placements not anchored in
/// corner columns score 1 more.
pub fn heuristic2(state: &[usize], size: usize) -> (r: usize)
    requires
        state@.len() >= 1,
        state@.len() * state@.len() <= usize::MAX,
    ensures
        r == boundary_score(state@, size as nat),
{
    let h1_value = heuristic1(state, size);
    let len = state.len();
    let corner_first = state[0] == 0 || size > 0 && state[0] == size - 1;
    let bonus: usize = if len == size {
        let corner_last = state[size - 1] == 0 || state[size - 1] == size - 1;
        if corner_first && corner_last {
            0
        } else {
            1
        }
    } else if corner_first {
        0
    } else {
        1
    };
    if h1_value == 0 {
        bonus
    } else {
        bonus + 1
    }
}

/// For each row, compares the queen with those of the next three rows and
/// counts the pairs a Manhattan distance of 3 apart; scores the pairs
/// compared plus the empty rows, minus those pairs.
pub fn heuristic3(state: &[usize], size: usize) -> (r: usize)
    requires
        state@.len() <= size,
        3 * size <= usize::MAX,
    ensures
        r == manhattan_score(state@, size as nat),
{
    let len = state.len();
    let mut steps: usize = 0;
    let mut hits: usize = 0;
    let mut i: usize = 0;
    while i < len
        invariant
            len == state@.len(),
            len <= size,
            3 * size <= usize::MAX,
            i <= len,
            steps == steps_before(state@, i as int),
            hits == hits_before(state@, i as int),
            hits <= steps,
            steps <= 3 * i,
        decreases len - i,
    {
        let end: usize = if i + 4 < len {
            i + 4
        } else {
            len
        };
        let mut j: usize = i + 1;
        while j < end
            invariant
                len == state@.len(),
                len <= size,
                3 * size <= usize::MAX,
                i < len,
                end == window_end(state@, i as int),
                i < j,
                j <= end || j == i + 1,
                j <= i + 4,
                steps == steps_before(state@, i as int) + (j - i - 1),
                hits == hits_before(state@, i as int) + window_hits(state@, i as int, j as int),
                hits <= steps,
                steps <= 3 * i + (j - i - 1),
            decreases end - j,
        {
            steps += 1;
            let d = abs_diff(state[i], state[j]);
            if d <= 3 && (j - i) + d == 3 {
                hits += 1;
            }
            j += 1;
        }
        proof {
            if end <= i + 1 {
                assert(window_size(state@, i as int) == 0);
                assert(window_hits(state@, i as int, end as int) == 0);
                assert(j == i + 1);
                assert(steps == steps_before(state@, i as int));
            } else {
                assert(j == end);
                assert(window_size(state@, i as int) == j - i - 1);
            }
            assert(steps == steps_before(state@, i + 1));
            assert(hits == hits_before(state@, i + 1));
        }
        i += 1;
    }
    steps + (size - len) - hits
}

/// The three interchangeable scoring functions.
#[derive(Clone, Copy, Debug, PartialEq, Eq, Structural)]
pub enum Heuristic {
    /// Number of attacking pairs.
    ConflictCount,
    /// Attack indicator plus a penalty for placements off the corner columns;
    /// searched with the first row left open until the last step.
    BoundaryBonus,
    /// Windowed Manhattan-distance count.
    WindowedManhattan,
}

/// Whether heuristic `h` searches with the first row left open.
pub open spec fn defers(h: Heuristic) -> bool {
    h == Heuristic::BoundaryBonus
}

/// The score that heuristic `h` gives placement `s` on an `n`-wide board.
pub open spec fn score(h: Heuristic, s: Seq<usize>, n: nat) -> int {
    match h {
        Heuristic::ConflictCount => conflict_count(s) as int,
        Heuristic::BoundaryBonus => boundary_score(s, n) as int,
        Heuristic::WindowedManhattan => manhattan_score(s, n),
    }
}

/// The inputs on which heuristic `h` is defined and its result fits a `usize`.
pub open spec fn scorable(h: Heuristic, s: Seq<usize>, n: nat) -> bool {
    match h {
        Heuristic::ConflictCount => s.len() * s.len() <= usize::MAX,
        Heuristic::BoundaryBonus => s.len() >= 1 && s.len() * s.len() <= usize::MAX,
        Heuristic::WindowedManhattan => s.len() <= n && 3 * n <= usize::MAX,
    }
}

impl Heuristic {
    /// Scores a placement on a `size`-wide board.
    pub fn evaluate(&self, state: &[usize], size: usize) -> (r: usize)
        requires
            scorable(*self, state@, size as nat),
        ensures
            r == score(*self, state@, size as nat),
    {
        match self {
            Heuristic::ConflictCount => heuristic1(state, size),
            Heuristic::BoundaryBonus => heuristic2(state, size),
            Heuristic::WindowedManhattan => heuristic3(state, size),
        }
    }

    /// Whether the search leaves the first row open (the sentinel encoding).
    pub fn defers_first_row(&self) -> (r: bool)
        ensures
            r == defers(*self),
    {
        match self {
            Heuristic::BoundaryBonus => true,
            _ => false,
        }
    }
}

proof fn lemma_row_conflicts_zero(s: Seq<usize>, i: int, j: int)
    ensures
        (row_conflicts(s, i, j) == 0) == (forall|k: int| i < k < j ==> !#[trigger] attacks(s, i, k)),
    decreases j - i,
{
    if j > i + 1 {
        lemma_row_conflicts_zero(s, i, j - 1);
        if row_conflicts(s, i, j) == 0 {
            assert forall|k: int| i < k < j implies !#[trigger] attacks(s, i, k) by {
                if k < j - 1 {
                }
            }
        }
    }
}

proof fn lemma_conflicts_before_zero(s: Seq<usize>, i: int)
    requires
        i <= s.len(),
    ensures
        (conflicts_before(s, i) == 0) == (forall|a: int, b: int|
            0 <= a < i && a < b < s.len() ==> !#[trigger] attacks(s, a, b)),
    decreases i,
{
    if i > 0 {
        lemma_conflicts_before_zero(s, i - 1);
        lemma_row_conflicts_zero(s, i - 1, s.len() as int);
        if conflicts_before(s, i) == 0 {
            assert forall|a: int, b: int| 0 <= a < i && a < b < s.len() implies !#[trigger] attacks(
                s,
                a,
                b,
            ) by {
                if a < i - 1 {
                } else {
                    assert(!attacks(s, i - 1, b));
                }
            }
        }
    }
}

/// The conflict-count heuristic is zero exactly on the placements in which
/// no two queens attack each other.
pub proof fn lemma_conflict_count_zero_iff_no_conflict(s: Seq<usize>)
    ensures
        (conflict_count(s) == 0) == !has_conflict(s),
{
    lemma_conflicts_before_zero(s, s.len() as int);
}

} // verus!
