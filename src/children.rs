//! Expansion of a placement into the placements one queen further.
use vstd::prelude::*;
use vstd::slice::slice_to_vec;
use crate::heuristic::{defers, score, scorable, Heuristic};
use crate::search::MAX_SIZE;

verus! {

/// The placement after choosing column `c` for the next row. When the
/// first row is left open (`defer`, marked by the value `n` in row 0), the
/// choice made on the last open step fills row 0 instead.
pub open spec fn child(s: Seq<usize>, c: usize, n: nat, defer: bool) -> Seq<usize> {
    if defer && s.len() + 1 == n && s.len() > 0 && s[0] == n {
        s.update(0, c)
    } else {
        s.push(c)
    }
}

/// The children for the columns below `k` that `s` does not use yet, in
/// increasing column order.
pub open spec fn children_upto(s: Seq<usize>, n: nat, k: nat, defer: bool) -> Seq<Seq<usize>>
    decreases k,
{
    if k == 0 {
        seq![]
    } else {
        let prev = children_upto(s, n, (k - 1) as nat, defer);
        if s.contains((k - 1) as usize) {
            prev
        } else {
            prev.push(child(s, (k - 1) as usize, n, defer))
        }
    }
}

/// All children of `s` on an `n`-wide board.
pub open spec fn children_of(s: Seq<usize>, n: nat, defer: bool) -> Seq<Seq<usize>> {
    children_upto(s, n, n, defer)
}

/// Whether `v` occurs in `s`.
pub fn contains_value(s: &[usize], v: usize) -> (r: bool)
    ensures
        r == s@.contains(v),
{
    let mut i: usize = 0;
    while i < s.len()
        invariant
            i <= s@.len(),
            forall|k: int| 0 <= k < i ==> s@[k] != v,
        decreases s@.len() - i,
    {
        if s[i] == v {
            assert(s@[i as int] == v);
            return true;
        }
        i += 1;
    }
    false
}

/// Builds `child(state, c, size, defer)`.
pub fn extend(state: &[usize], c: usize, size: usize, defer: bool) -> (r: Vec<usize>)
    ensures
        r@ == child(state@, c, size as nat, defer),
{
    let mut t = slice_to_vec(state);
    if defer && state.len() > 0 && size > 0 && state.len() == size - 1 && state[0] == size {
        t.set(0, c);
    } else {
        t.push(c);
    }
    t
}

/// Every child of `state` with the score that `heuristic` gives it. Under
/// the boundary-bonus heuristic the first row is left open until the last
/// step.
pub fn generate_children(size: usize, state: &Vec<usize>, heuristic: Heuristic) -> (r: Vec<
    (Vec<usize>, usize),
>)
    requires
        state@.len() <= size + 1,
        size <= MAX_SIZE,
        heuristic == Heuristic::WindowedManhattan ==> state@.len() < size,
    ensures
        r@.len() == children_of(state@, size as nat, defers(heuristic)).len(),
        forall|k: int|
            0 <= k < r@.len() ==> {
                let p = children_of(state@, size as nat, defers(heuristic))[k];
                &&& (#[trigger] r@[k]).0@ == p
                &&& r@[k].1 == score(heuristic, p, size as nat)
            },
{
    let defer = heuristic.defers_first_row();
    proof {
        let n = size as nat;
        assert((n + 2) * (n + 2) <= 65535 * 65535 && 3 * n <= 65535 * 65535) by (nonlinear_arith)
            requires
                n <= MAX_SIZE,
        ;
        assert forall|c: usize| c < n && !state@.contains(c) implies scorable(
            heuristic,
            #[trigger] child(state@, c, n, defers(heuristic)),
            n,
        ) by {
            let ch = child(state@, c, n, defers(heuristic));
            assert(ch.len() * ch.len() <= (n + 2) * (n + 2)) by (nonlinear_arith)
                requires
                    ch.len() <= n + 2,
            ;
        }
    }
    let mut to_return: Vec<(Vec<usize>, usize)> = Vec::new();
    let mut i: usize = 0;
    while i < size
        invariant
            i <= size,
            defer == (defers(heuristic)),
            forall|c: usize|
                c < size && !state@.contains(c) ==> scorable(
                    heuristic,
                    #[trigger] child(state@, c, size as nat, defers(heuristic)),
                    size as nat,
                ),
            to_return@.len() == children_upto(state@, size as nat, i as nat, defer).len(),
            forall|k: int|
                0 <= k < to_return@.len() ==> {
                    let p = children_upto(state@, size as nat, i as nat, defer)[k];
                    &&& (#[trigger] to_return@[k]).0@ == p
                    &&& to_return@[k].1 == score(heuristic, p, size as nat)
                },
        decreases size - i,
    {
        if !contains_value(state.as_slice(), i) {
            let t = extend(state.as_slice(), i, size, defer);
            assert(scorable(heuristic, child(state@, i, size as nat, defer), size as nat));
            let h = heuristic.evaluate(t.as_slice(), size);
            to_return.push((t, h));
        }
        i += 1;
    }
    to_return
}

/// Every child of `state`, each placing the next row in a column not used
/// yet.
pub fn generate_children_extra(size: usize, state: &[usize]) -> (r: Vec<Vec<usize>>)
    ensures
        r@.len() == children_of(state@, size as nat, false).len(),
        forall|k: int|
            0 <= k < r@.len() ==> (#[trigger] r@[k])@ == children_of(state@, size as nat, false)[k],
{
    let mut to_return: Vec<Vec<usize>> = Vec::new();
    let mut i: usize = 0;
    while i < size
        invariant
            i <= size,
            to_return@.len() == children_upto(state@, size as nat, i as nat, false).len(),
            forall|k: int|
                0 <= k < to_return@.len() ==> (#[trigger] to_return@[k])@ == children_upto(
                    state@,
                    size as nat,
                    i as nat,
                    false,
                )[k],
        decreases size - i,
    {
        if !contains_value(state, i) {
            let t = extend(state, i, size, false);
            to_return.push(t);
        }
        i += 1;
    }
    to_return
}

/// Every child `child(s, c, n, defer)` for a column `c < n` not used by `s`
/// is among the children of `s`.
pub proof fn lemma_child_listed(s: Seq<usize>, n: nat, k: nat, c: usize, defer: bool)
    requires
        c < k,
        !s.contains(c),
    ensures
        children_upto(s, n, k, defer).contains(child(s, c, n, defer)),
    decreases k,
{
    let prev = children_upto(s, n, (k - 1) as nat, defer);
    if c < k - 1 {
        lemma_child_listed(s, n, (k - 1) as nat, c, defer);
        let i = choose|i: int| 0 <= i < prev.len() && prev[i] == child(s, c, n, defer);
        if !s.contains((k - 1) as usize) {
            assert(children_upto(s, n, k, defer)[i] == child(s, c, n, defer));
        }
    } else {
        assert(children_upto(s, n, k, defer).last() == child(s, c, n, defer));
    }
}

} // verus!
