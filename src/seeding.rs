//! The starting placements of a search and the initial frontier they give.
use vstd::prelude::*;
use vstd::slice::slice_to_vec;
use crate::dedup::below;
use crate::heuristic::{defers, score, Heuristic};
use crate::search::{accepted, defer_of, entry_view, states_of, Strategy, MAX_SIZE};

verus! {

/// The starting placement for column `i`: the single queen `[i]`, or
/// `[n, i]` (row 0 open, row 1 in column `i`) when the first row is deferred
/// on a board of at least 3 columns (on smaller boards there is no row to
/// place between the open first row and the last one).
pub open spec fn seed(n: nat, i: nat, defer: bool) -> Seq<usize> {
    if defer && n >= 3 {
        seq![n as usize, i as usize]
    } else {
        seq![i as usize]
    }
}

/// The initial frontier entries of a greedy search. Under the boundary-bonus
/// heuristic: `size` copies of the starting placement of each column, all
/// with the highest priority value. Otherwise: `[i]` for each column `i`,
/// scored by the heuristic.
pub fn initialize_board(size: usize, heuristic: Heuristic) -> (r: Vec<(Vec<usize>, usize)>)
    requires
        size <= MAX_SIZE,
    ensures
        defers(heuristic) ==> r@.len() == size * size,
        defers(heuristic) ==> forall|i: int, j: int|
            0 <= i < size && 0 <= j < size ==> {
                &&& #[trigger] r@[i * size + j].0@ == seed(size as nat, i as nat, true)
                &&& r@[i * size + j].1 == usize::MAX
            },
        !defers(heuristic) ==> r@.len() == size,
        !defers(heuristic) ==> forall|i: int|
            0 <= i < size ==> {
                &&& (#[trigger] r@[i]).0@ == seed(size as nat, i as nat, false)
                &&& r@[i].1 == score(heuristic, seq![i as usize], size as nat)
            },
{
    if heuristic.defers_first_row() {
        deferred_board(size)
    } else {
        let mut to_return: Vec<(Vec<usize>, usize)> = Vec::new();
        let mut i: usize = 0;
        while i < size
            invariant
                i <= size,
                size <= MAX_SIZE,
                !defers(heuristic),
                to_return@.len() == i,
                forall|k: int|
                    0 <= k < i ==> {
                        &&& (#[trigger] to_return@[k]).0@ == seed(size as nat, k as nat, false)
                        &&& to_return@[k].1 == score(heuristic, seq![k as usize], size as nat)
                    },
            decreases size - i,
        {
            let mut s: Vec<usize> = Vec::new();
            s.push(i);
            assert(s@ == seq![i]);
            assert(s@.len() * s@.len() == 1) by (nonlinear_arith)
                requires
                    s@.len() == 1,
            ;
            assert(3 * size <= usize::MAX);
            let h = heuristic.evaluate(s.as_slice(), size);
            to_return.push((s, h));
            i += 1;
        }
        to_return
    }
}

/// `size` copies of each deferred starting placement, with the highest
/// priority value.
fn deferred_board(size: usize) -> (r: Vec<(Vec<usize>, usize)>)
    requires
        size <= MAX_SIZE,
    ensures
        r@.len() == size * size,
        forall|i: int, j: int|
            0 <= i < size && 0 <= j < size ==> {
                &&& #[trigger] r@[i * size + j].0@ == seed(size as nat, i as nat, true)
                &&& r@[i * size + j].1 == usize::MAX
            },
{
    assert(size * size <= usize::MAX) by (nonlinear_arith)
        requires
            size <= MAX_SIZE,
    ;
    let mut to_return: Vec<(Vec<usize>, usize)> = Vec::new();
    let mut i: usize = 0;
    while i < size
        invariant
            i <= size,
            size * size <= usize::MAX,
            to_return@.len() == i * size,
            forall|a: int, b: int|
                0 <= a < i && 0 <= b < size ==> {
                    &&& #[trigger] to_return@[a * size + b].0@ == seed(size as nat, a as nat, true)
                    &&& to_return@[a * size + b].1 == usize::MAX
                },
        decreases size - i,
    {
        let mut j: usize = 0;
        while j < size
            invariant
                i < size,
                j <= size,
                size * size <= usize::MAX,
                to_return@.len() == i * size + j,
                forall|a: int, b: int|
                    0 <= b < size && (0 <= a < i || (a == i && b < j)) ==> {
                        &&& #[trigger] to_return@[a * size + b].0@ == seed(size as nat, a as nat, true)
                        &&& to_return@[a * size + b].1 == usize::MAX
                    },
            decreases size - j,
        {
            let mut s: Vec<usize> = Vec::new();
            if size >= 3 {
                s.push(size);
            }
            s.push(i);
            assert(s@ == seed(size as nat, i as nat, true));
            let ghost before = to_return@;
            let ghost sv = s@;
            to_return.push((s, usize::MAX));
            assert(to_return@[i * size + j].0@ == sv);
            assert forall|a: int, b: int|
                0 <= b < size && (0 <= a < i || (a == i && b < j + 1)) implies {
                &&& #[trigger] to_return@[a * size + b].0@ == seed(size as nat, a as nat, true)
                &&& to_return@[a * size + b].1 == usize::MAX
            } by {
                if a < i {
                    assert(a * size + b < i * size) by (nonlinear_arith)
                        requires
                            0 <= a < i,
                            b < size,
                    ;
                    assert(to_return@[a * size + b] == before[a * size + b]);
                } else if b < j {
                    assert(to_return@[a * size + b] == before[a * size + b]);
                } else {
                    assert(a * size + b == i * size + j);
                }
            }
            j += 1;
        }
        assert((i + 1) * size == i * size + size) by (nonlinear_arith);
        i += 1;
    }
    to_return
}

/// The initial frontier of a breadth- or depth-first search: `[i]` for each
/// column `i`.
pub fn initialize_board_extra(size: usize) -> (r: Vec<Vec<usize>>)
    ensures
        r@.len() == size,
        forall|i: int| 0 <= i < size ==> (#[trigger] r@[i])@ == seed(size as nat, i as nat, false),
{
    let mut to_return: Vec<Vec<usize>> = Vec::new();
    let mut i: usize = 0;
    while i < size
        invariant
            i <= size,
            to_return@.len() == i,
            forall|k: int| 0 <= k < i ==> (#[trigger] to_return@[k])@ == seed(size as nat, k as nat, false),
        decreases size - i,
    {
        let mut s: Vec<usize> = Vec::new();
        s.push(i);
        to_return.push(s);
        i += 1;
    }
    to_return
}

/// The priority of the starting placement of column `i`: its score for a
/// greedy search (the highest priority value, standing for "unknown", when
/// the first row is deferred), 0 otherwise.
pub open spec fn initial_priority(strategy: Strategy, n: nat, i: nat) -> nat {
    match strategy {
        Strategy::Greedy(h) => if defers(h) {
            usize::MAX as nat
        } else {
            score(h, seq![i as usize], n) as nat
        },
        _ => 0,
    }
}

/// The frontier of a new search: the starting placement of each column in
/// column order, with its initial priority.
pub open spec fn initial_entries(n: nat, strategy: Strategy) -> Seq<(Seq<usize>, nat)> {
    Seq::new(
        n,
        |i: int| (seed(n, i as nat, defer_of(strategy)), initial_priority(strategy, n, i as nat)),
    )
}

/// The first `m` starting placements with priority `p`.
pub open spec fn seed_run(n: nat, m: nat, d: bool, p: nat) -> Seq<(Seq<usize>, nat)> {
    Seq::new(m, |i: int| (seed(n, i as nat, d), p))
}

proof fn lemma_seed_run_states(n: nat, m: nat, d: bool, p: nat, i: nat)
    requires
        n <= usize::MAX,
        i < n,
        m <= n,
    ensures
        states_of(seed_run(n, m, d, p)).contains(seed(n, i, d)) == (i < m),
{
    if states_of(seed_run(n, m, d, p)).contains(seed(n, i, d)) {
        let j = choose|j: int| 0 <= j < m && (#[trigger] seed_run(n, m, d, p)[j]).0 == seed(n, i, d);
        if d && n >= 3 {
            assert(seed(n, j as nat, d)[1] == j);
            assert(seed(n, i, d)[1] == i);
        } else {
            assert(seed(n, j as nat, d)[0] == j);
            assert(seed(n, i, d)[0] == i);
        }
    }
    if i < m {
        assert(seed_run(n, m, d, p)[i as int].0 == seed(n, i, d));
    }
}

/// Offering `n` copies of each starting placement keeps the first copy of each.
proof fn lemma_board_accepted(iv: Seq<(Seq<usize>, nat)>, n: nat, d: bool, p: nat, i: nat, j: nat)
    requires
        n <= usize::MAX,
        iv.len() == n * n,
        forall|a: int, b: int|
            0 <= a < n && 0 <= b < n ==> #[trigger] iv[a * n + b] == (seed(n, a as nat, d), p),
        i < n,
        j <= n,
    ensures
        accepted(iv, i * n + j, Set::empty(), Set::empty()) == if j == 0 {
            seed_run(n, i, d, p)
        } else {
            seed_run(n, i + 1, d, p)
        },
    decreases i, j,
{
    let e = Set::<Seq<usize>>::empty();
    assert(i * n + j <= n * n) by (nonlinear_arith)
        requires
            i < n,
            j <= n,
    ;
    if j == 0 {
        if i == 0 {
            assert(seed_run(n, 0, d, p) =~= Seq::<(Seq<usize>, nat)>::empty());
        } else {
            lemma_board_accepted(iv, n, d, p, (i - 1) as nat, n);
            assert((i - 1) * n + n == i * n) by (nonlinear_arith)
                requires
                    i >= 1,
            ;
        }
    } else {
        lemma_board_accepted(iv, n, d, p, i, (j - 1) as nat);
        let k = i * n + j;
        let prev = accepted(iv, (k - 1) as nat, e, e);
        assert(iv[i * n + (j - 1)] == (seed(n, i, d), p));
        assert(iv[k - 1] == (seed(n, i, d), p));
        if j == 1 {
            lemma_seed_run_states(n, i, d, p, i);
            assert(seed_run(n, i, d, p).push((seed(n, i, d), p)) =~= seed_run(n, i + 1, d, p));
        } else {
            lemma_seed_run_states(n, i + 1, d, p, i);
        }
    }
}

/// The entries that seeding accepts are the initial entries.
proof fn lemma_initial_accepted(items: Seq<(Vec<usize>, usize)>, size: usize, strategy: Strategy)
    requires
        defer_of(strategy) ==> {
            &&& items.len() == size * size
            &&& forall|i: int, j: int|
                0 <= i < size && 0 <= j < size ==> {
                    &&& #[trigger] items[i * size + j].0@ == seed(size as nat, i as nat, true)
                    &&& items[i * size + j].1 == usize::MAX
                }
        },
        !defer_of(strategy) ==> {
            &&& items.len() == size
            &&& forall|k: int|
                0 <= k < size ==> (#[trigger] items[k]).0@ == seed(size as nat, k as nat, false)
                    && items[k].1 == initial_priority(strategy, size as nat, k as nat)
        },
    ensures
        accepted(entry_view(items), items.len(), Set::empty(), Set::empty()) == initial_entries(size as nat, strategy),
{
    let n = size as nat;
    let d = defer_of(strategy);
    let iv = entry_view(items);
    let acc = accepted(iv, items.len(), Set::empty(), Set::empty());
    if d {
        assert forall|a: int, b: int| 0 <= a < n && 0 <= b < n implies #[trigger] iv[a * n + b]
            == (seed(n, a as nat, d), usize::MAX as nat) by {
            assert(a * n + b < n * n) by (nonlinear_arith)
                requires
                    0 <= a < n,
                    0 <= b < n,
            ;
            assert(items[a * size + b].0@ == seed(n, a as nat, d));
        }
        if n == 0 {
            assert(acc =~= initial_entries(n, strategy));
        } else {
            lemma_board_accepted(iv, n, d, usize::MAX as nat, (n - 1) as nat, n);
            assert((n - 1) * n + n == n * n) by (nonlinear_arith)
                requires
                    n >= 1,
            ;
            assert(acc =~= initial_entries(n, strategy));
        }
    } else {
        assert forall|a: int, b: int| 0 <= a < b < iv.len() implies (#[trigger] iv[a]).0
            != (#[trigger] iv[b]).0 by {
            assert(iv[a].0[0] == a && iv[b].0[0] == b);
        }
        lemma_distinct_accepted(iv, items.len());
        assert forall|k: int| 0 <= k < n implies #[trigger] acc[k] == initial_entries(n, strategy)[k] by {
            assert(iv[k] == (items[k].0@, items[k].1 as nat));
        }
        assert(acc =~= initial_entries(n, strategy));
    }
}

/// Offering distinct entries to empty sets accepts them all.
proof fn lemma_distinct_accepted(iv: Seq<(Seq<usize>, nat)>, k: nat)
    requires
        k <= iv.len(),
        forall|a: int, b: int| 0 <= a < b < iv.len() ==> (#[trigger] iv[a]).0 != (#[trigger] iv[b]).0,
    ensures
        accepted(iv, k, Set::empty(), Set::empty()) == iv.take(k as int),
    decreases k,
{
    if k == 0 {
        assert(iv.take(0) =~= Seq::<(Seq<usize>, nat)>::empty());
    } else {
        lemma_distinct_accepted(iv, (k - 1) as nat);
        let prev = iv.take(k - 1);
        assert(!states_of(prev).contains(iv[k - 1].0)) by {
            if states_of(prev).contains(iv[k - 1].0) {
                let j = choose|j: int| 0 <= j < prev.len() && (#[trigger] prev[j]).0 == iv[k - 1].0;
                assert(iv[j].0 == iv[k - 1].0);
            }
        }
        assert(prev.push(iv[k - 1]) =~= iv.take(k as int));
    }
}

/// The entries offered to a new search: `size` copies of each starting
/// placement when the first row is deferred, one of each otherwise.
pub fn initial_items(size: usize, strategy: Strategy) -> (items: Vec<(Vec<usize>, usize)>)
    requires
        size <= MAX_SIZE,
    ensures
        forall|i: nat| i < size ==> exists|k: int|
            0 <= k < items@.len() && (#[trigger] items@[k]).0@ == #[trigger] seed(size as nat, i, defer_of(strategy)),
        forall|k: int| 0 <= k < items@.len() ==> seeds(size as nat, defer_of(strategy)).contains(
            (#[trigger] items@[k]).0@,
        ),
        forall|k: int| 0 <= k < items@.len() ==> below((#[trigger] items@[k]).0@, (size + 1) as nat),
        accepted(entry_view(items@), items@.len(), Set::empty(), Set::empty()) == initial_entries(size as nat, strategy),
{
    let ghost n = size as nat;
    let ghost d = defer_of(strategy);
    assert(size * size <= usize::MAX) by (nonlinear_arith)
        requires
            size <= MAX_SIZE,
    ;
    let items: Vec<(Vec<usize>, usize)> = match strategy {
        Strategy::Greedy(h) => initialize_board(size, h),
        _ => with_zero_scores(&initialize_board_extra(size)),
    };
    proof {
        assert forall|i: nat| i < n implies exists|k: int|
            0 <= k < items@.len() && (#[trigger] items@[k]).0@ == #[trigger] seed(n, i, d) by {
            if d {
                assert(i * size + 0 < size * size) by (nonlinear_arith)
                    requires
                        i < size,
                ;
                assert(items@[i * size + 0].0@ == seed(n, i, d));
            } else {
                assert(items@[i as int].0@ == seed(n, i, d));
            }
        }
        assert forall|k: int| 0 <= k < items@.len() implies seeds(n, d).contains(
            (#[trigger] items@[k]).0@,
        ) by {
            if d {
                let i = k / size as int;
                let j = k % size as int;
                assert(k == i * size + j && 0 <= i < size && 0 <= j < size) by (nonlinear_arith)
                    requires
                        0 <= k < size * size,
                        i == k / size as int,
                        j == k % size as int,
                ;
                assert(items@[i * size + j].0@ == seed(n, i as nat, d));
            } else {
                assert(items@[k].0@ == seed(n, k as nat, d));
            }
        }
        assert forall|k: int| 0 <= k < items@.len() implies below(
            (#[trigger] items@[k]).0@,
            (size + 1) as nat,
        ) by {
            assert(seeds(n, d).contains(items@[k].0@));
        }
    }
    proof {
        lemma_initial_accepted(items@, size, strategy);
    }
    items
}

/// The starting placements of every column.
pub open spec fn seeds(n: nat, defer: bool) -> Set<Seq<usize>> {
    Set::new(|s: Seq<usize>| exists|i: nat| i < n && s == seed(n, i, defer))
}

/// Pairs each placement with the score 0.
pub fn with_zero_scores(states: &Vec<Vec<usize>>) -> (r: Vec<(Vec<usize>, usize)>)
    ensures
        r@.len() == states@.len(),
        forall|k: int| 0 <= k < r@.len() ==> (#[trigger] r@[k]).0@ == states@[k]@ && r@[k].1 == 0,
{
    let mut r: Vec<(Vec<usize>, usize)> = Vec::new();
    let mut k: usize = 0;
    while k < states.len()
        invariant
            k <= states@.len(),
            r@.len() == k,
            forall|j: int| 0 <= j < k ==> (#[trigger] r@[j]).0@ == states@[j]@ && r@[j].1 == 0,
        decreases states@.len() - k,
    {
        r.push((slice_to_vec(states[k].as_slice()), 0));
        k += 1;
    }
    r
}

} // verus!
