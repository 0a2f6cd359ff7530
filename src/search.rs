//! The search driver: pops a placement, accepts it as a solution, closes it
//! or expands it, until a solution turns up or the frontier runs dry.
use vstd::prelude::*;
use crate::children::{
    child, children_of, children_upto, generate_children, generate_children_extra, lemma_child_listed,
};
use crate::dedup::{below, DedupTracker};
use crate::frontier::{is_best_index, picked, Frontier, Order};
use crate::heuristic::{defers, score, Heuristic};
use crate::count::{lemma_bounded_card, power};
use crate::seeding::{initial_entries, initial_items, seed, seeds, with_zero_scores};
use crate::state::{attacks, conflict_checker, conflict_checker_extra, has_conflict, is_solution, on_board};

verus! {

/// How a search orders its frontier.
#[derive(Clone, Copy, Debug, PartialEq, Eq, Structural)]
pub enum Strategy {
    /// Oldest placement first.
    BreadthFirst,
    /// Newest placement first.
    DepthFirst,
    /// Lowest score under the heuristic first, the oldest among equal scores.
    Greedy(Heuristic),
}

/// The frontier order of a strategy.
pub open spec fn order_of(s: Strategy) -> Order {
    match s {
        Strategy::BreadthFirst => Order::Fifo,
        Strategy::DepthFirst => Order::Lifo,
        Strategy::Greedy(_) => Order::Best,
    }
}

/// The strategy leaves the first row open until the last step.
pub open spec fn defer_of(s: Strategy) -> bool {
    match s {
        Strategy::Greedy(h) => defers(h),
        _ => false,
    }
}

/// The largest board size searched: on it every count and score of a search
/// fits even a 32-bit `usize` (`(MAX_SIZE + 2)^2 < 2^32`).
pub const MAX_SIZE: usize = 65533;

/// Board sizes up to `MAX_SIZE`.
pub open spec fn size_fits(n: nat) -> bool {
    n <= MAX_SIZE
}

/// Every count and score of a search on an `n`-wide board fits a `usize`.
pub open spec fn counts_fit(n: nat) -> bool {
    (n + 2) * (n + 2) <= usize::MAX
}

proof fn lemma_counts_fit(n: nat)
    requires
        size_fits(n),
    ensures
        counts_fit(n),
{
    assert((n + 2) * (n + 2) <= 65535 * 65535) by (nonlinear_arith)
        requires
            n <= MAX_SIZE,
    ;
}

/// The shape of every placement a search handles: at most `n` rows, columns
/// on the board, except that a deferred first row holds the value `n`, and
/// then only on boards of at least 3 columns and while at least one later
/// row is still to be placed (so a full placement never holds it).
pub open spec fn well_placed(s: Seq<usize>, n: nat, defer: bool) -> bool {
    &&& 1 <= s.len() <= n
    &&& forall|i: int| 0 <= i < s.len() ==> #[trigger] s[i] < n || (i == 0 && s[i] == n)
    &&& s[0] == n ==> (defer && n >= 3 && 2 <= s.len() < n)
}

/// The placements that entries `e` hold.
pub open spec fn states_of(e: Seq<(Seq<usize>, nat)>) -> Set<Seq<usize>> {
    Set::new(|s: Seq<usize>| exists|j: int| 0 <= j < e.len() && (#[trigger] e[j]).0 == s)
}

/// Of the first `k` offered entries, those that go into the frontier: the
/// ones neither visited, nor closed, nor offered earlier.
pub open spec fn accepted(
    items: Seq<(Seq<usize>, nat)>,
    k: nat,
    v: Set<Seq<usize>>,
    c: Set<Seq<usize>>,
) -> Seq<(Seq<usize>, nat)>
    decreases k,
{
    if k == 0 || k > items.len() {
        seq![]
    } else {
        let prev = accepted(items, (k - 1) as nat, v, c);
        let x = items[k - 1];
        if v.contains(x.0) || c.contains(x.0) || states_of(prev).contains(x.0) {
            prev
        } else {
            prev.push(x)
        }
    }
}

/// Entries of placements with their scores, as plain values.
pub open spec fn entry_view(items: Seq<(Vec<usize>, usize)>) -> Seq<(Seq<usize>, nat)> {
    items.map_values(|p: (Vec<usize>, usize)| (p.0@, p.1 as nat))
}

/// The children of `p` with the scores the strategy orders them by (0 for
/// breadth- and depth-first search).
pub open spec fn expansions(strategy: Strategy, p: Seq<usize>, n: nat) -> Seq<(Seq<usize>, nat)> {
    match strategy {
        Strategy::Greedy(h) => children_of(p, n, defers(h)).map_values(
            |c: Seq<usize>| (c, score(h, c, n) as nat),
        ),
        _ => children_of(p, n, false).map_values(|c: Seq<usize>| (c, 0nat)),
    }
}

/// What one step of the search did.
#[derive(Debug)]
pub enum Step {
    /// A placement was closed or expanded; the search goes on.
    Continue,
    /// The popped placement is a full placement without conflicts.
    Found(Vec<usize>),
    /// The frontier is empty.
    Exhausted,
}

/// A run of the search on a board of `size` columns.
pub struct Search {
    size: usize,
    strategy: Strategy,
    frontier: Frontier,
    tracker: DedupTracker,
    open_max: usize,
}

impl Search {
    /// Number of columns (and rows) of the board.
    pub closed spec fn size(&self) -> nat {
        self.size as nat
    }

    /// How the frontier is ordered.
    pub closed spec fn strategy(&self) -> Strategy {
        self.strategy
    }

    /// The frontier's placements with their scores, oldest first.
    pub closed spec fn entries(&self) -> Seq<(Seq<usize>, nat)> {
        self.frontier.entries()
    }

    /// Placements ever put in the frontier.
    pub closed spec fn visited(&self) -> Set<Seq<usize>> {
        self.tracker.visited()
    }

    /// Placements taken out of the frontier and closed.
    pub closed spec fn closed(&self) -> Set<Seq<usize>> {
        self.tracker.closed()
    }

    /// Largest frontier length seen at the end of a step.
    pub closed spec fn open_max(&self) -> nat {
        self.open_max as nat
    }

    /// The abstract state of the search.
    pub closed spec fn snapshot(&self) -> Snapshot {
        Snapshot {
            entries: self.frontier.entries(),
            visited: self.tracker.visited(),
            closed: self.tracker.closed(),
            open_max: self.open_max as nat,
        }
    }

    /// The frontier and the tracker are well formed (also after a solution).
    pub closed spec fn ready(&self) -> bool {
        self.frontier.wf() && self.tracker.wf()
    }

    /// The invariant of a search: the frontier holds distinct visited
    /// placements, none closed; every visited placement is closed or in the
    /// frontier, and every closed one was visited; all are well placed; a
    /// closed full placement has a conflict; every child of a closed partial
    /// placement was visited; every starting placement was visited.
    pub closed spec fn inv(&self) -> bool {
        let n = self.size as nat;
        let d = defer_of(self.strategy);
        let e = self.frontier.entries();
        let v = self.tracker.visited();
        let c = self.tracker.closed();
        &&& self.frontier.wf()
        &&& self.tracker.wf()
        &&& self.tracker.width() == n + 1
        &&& self.frontier.order() == order_of(self.strategy)
        &&& size_fits(n)
        &&& counts_fit(n)
        &&& forall|a: int, b: int| 0 <= a < b < e.len() ==> (#[trigger] e[a]).0 != (#[trigger] e[b]).0
        &&& forall|k: int| 0 <= k < e.len() ==> v.contains((#[trigger] e[k]).0) && !c.contains(e[k].0)
        &&& forall|s: Seq<usize>| #[trigger] v.contains(s) ==> c.contains(s) || states_of(e).contains(s)
        &&& forall|s: Seq<usize>| #[trigger] c.contains(s) ==> v.contains(s)
        &&& forall|s: Seq<usize>| #[trigger] v.contains(s) ==> well_placed(s, n, d)
        &&& forall|s: Seq<usize>| #[trigger] c.contains(s) && s.len() == n ==> has_conflict(s)
        &&& forall|s: Seq<usize>, col: usize|
            #![trigger c.contains(s), child(s, col, n, d)]
            c.contains(s) && s.len() != n && col < n && !s.contains(col) ==> v.contains(
                child(s, col, n, d),
            )
        &&& forall|i: nat| i < n ==> v.contains(#[trigger] seed(n, i, d))
    }

    /// Offers each entry to the dedup tracker and pushes the accepted ones.
    fn admit_all(&mut self, items: &Vec<(Vec<usize>, usize)>)
        requires
            old(self).frontier.wf(),
            old(self).tracker.wf(),
            old(self).tracker.width() == old(self).size + 1,
            forall|k: int|
                0 <= k < items@.len() ==> below((#[trigger] items@[k]).0@, (old(self).size + 1) as nat),
        ensures
            final(self).frontier.wf(),
            final(self).tracker.wf(),
            final(self).tracker.width() == old(self).tracker.width(),
            final(self).size == old(self).size,
            final(self).strategy == old(self).strategy,
            final(self).open_max == old(self).open_max,
            final(self).frontier.order() == old(self).frontier.order(),
            final(self).tracker.closed() == old(self).tracker.closed(),
            final(self).frontier.entries() == old(self).frontier.entries() + accepted(
                entry_view(items@),
                items@.len(),
                old(self).tracker.visited(),
                old(self).tracker.closed(),
            ),
            final(self).tracker.visited() == old(self).tracker.visited().union(
                states_of(
                    accepted(
                        entry_view(items@),
                        items@.len(),
                        old(self).tracker.visited(),
                        old(self).tracker.closed(),
                    ),
                ),
            ),
            forall|j: int|
                0 <= j < items@.len() ==> final(self).tracker.visited().contains(
                    (#[trigger] items@[j]).0@,
                ) || old(self).tracker.closed().contains(items@[j].0@),
    {
        let ghost v0 = self.tracker.visited();
        let ghost c0 = self.tracker.closed();
        let ghost e0 = self.frontier.entries();
        let ghost iv = entry_view(items@);
        let mut k: usize = 0;
        while k < items.len()
            invariant
                self.frontier.wf(),
                self.tracker.wf(),
                self.tracker.width() == self.size + 1,
                self.size == old(self).size,
                self.strategy == old(self).strategy,
                self.open_max == old(self).open_max,
                self.frontier.order() == old(self).frontier.order(),
                self.tracker.closed() == c0,
                v0 == old(self).tracker.visited(),
                c0 == old(self).tracker.closed(),
                e0 == old(self).frontier.entries(),
                iv == entry_view(items@),
                k <= items@.len(),
                forall|j: int|
                    0 <= j < items@.len() ==> below((#[trigger] items@[j]).0@, (self.size + 1) as nat),
                self.frontier.entries() == e0 + accepted(iv, k as nat, v0, c0),
                self.tracker.visited() == v0.union(states_of(accepted(iv, k as nat, v0, c0))),
                forall|j: int|
                    0 <= j < k ==> self.tracker.visited().contains((#[trigger] items@[j]).0@)
                        || c0.contains(items@[j].0@),
            decreases items@.len() - k,
        {
            let ghost acc = accepted(iv, k as nat, v0, c0);
            let item = &items[k];
            assert(iv[k as int] == (item.0@, item.1 as nat));
            let fresh = self.tracker.should_enqueue(item.0.as_slice());
            if fresh {
                self.frontier.push(item.0.as_slice(), item.1);
                proof {
                    assert(accepted(iv, (k + 1) as nat, v0, c0) == acc.push(iv[k as int]));
                    assert(self.frontier.entries() =~= e0 + acc.push(iv[k as int]));
                    assert(states_of(acc.push(iv[k as int])) =~= states_of(acc).insert(item.0@)) by {
                        assert forall|s: Seq<usize>| states_of(acc.push(iv[k as int])).contains(s)
                            implies states_of(acc).insert(item.0@).contains(s) by {
                            let j = choose|j: int|
                                0 <= j < acc.push(iv[k as int]).len() && (#[trigger] acc.push(
                                    iv[k as int],
                                )[j]).0 == s;
                            if j < acc.len() {
                                assert(acc[j].0 == s);
                            }
                        }
                        assert forall|s: Seq<usize>| states_of(acc).insert(item.0@).contains(s)
                            implies states_of(acc.push(iv[k as int])).contains(s) by {
                            if s == item.0@ {
                                assert(acc.push(iv[k as int])[acc.len() as int].0 == s);
                            } else {
                                let j = choose|j: int| 0 <= j < acc.len() && (#[trigger] acc[j]).0 == s;
                                assert(acc.push(iv[k as int])[j].0 == s);
                            }
                        }
                    }
                    assert(self.tracker.visited() =~= v0.union(
                        states_of(accepted(iv, (k + 1) as nat, v0, c0)),
                    ));
                }
            } else {
                proof {
                    assert(accepted(iv, (k + 1) as nat, v0, c0) == acc);
                }
            }
            assert(self.tracker.visited().contains(item.0@) || c0.contains(item.0@));
            k += 1;
        }
    }

    /// Pops the placement that the strategy picks and deals with it: a full
    /// placement without conflicts is the answer; another full placement is
    /// closed; a partial one is expanded, its new children enter the
    /// frontier, and it is closed.
    pub fn step(&mut self) -> (r: Step)
        requires
            old(self).inv(),
        ensures
            !(r is Found) ==> final(self).inv(),
            final(self).ready(),
            final(self).size() == old(self).size(),
            final(self).strategy() == old(self).strategy(),
            old(self).visited().subset_of(final(self).visited()),
            old(self).closed().subset_of(final(self).closed()),
            (r is Exhausted) == (old(self).entries().len() == 0),
            r is Exhausted ==> *final(self) == *old(self),
            old(self).entries().len() > 0 ==> exists|i: int|
                picked(order_of(old(self).strategy()), old(self).entries(), i) && handled(
                    *old(self),
                    *final(self),
                    i,
                    r,
                ),
    {
        let ghost o = *self;
        if self.frontier.len() == 0 {
            return Step::Exhausted;
        }
        let p = self.frontier.pop();
        let ghost i = choose|i: int|
            picked(o.frontier.order(), o.frontier.entries(), i) && p@ == o.frontier.entries()[i].0
                && self.frontier.entries() == o.frontier.entries().remove(i);
        let ghost e = o.frontier.entries();
        let ghost n = self.size as nat;
        let ghost d = defer_of(self.strategy);
        proof {
            assert(o.tracker.visited().contains(e[i].0));
            assert(well_placed(p@, n, d));
        }
        let size = self.size;
        let ghost added: Seq<(Seq<usize>, nat)>;
        if p.len() == size {
            let conflict = match self.strategy {
                Strategy::Greedy(_) => conflict_checker(&p),
                _ => conflict_checker_extra(&p),
            };
            if !conflict {
                proof {
                    assert(handled(o, *self, i, Step::Found(p)));
                }
                return Step::Found(p);
            }
            proof {
                assert(below(p@, n + 1));
                added = Seq::empty();
            }
            self.tracker.mark_closed(p.as_slice());
            proof {
                assert(self.tracker.visited() =~= o.tracker.visited().union(states_of(added)));
            }
        } else {
            let ghost ex = expansions(self.strategy, p@, n);
            let ghost kids = children_of(p@, n, d);
            proof {
                lemma_children_shape(p@, n, n, d);
                assert forall|t: int| 0 <= t < kids.len() implies well_placed(#[trigger] kids[t], n, d) && kids[t].len() <= n + 1 && (!d ==> kids[t].len() <= n) by {
                    let c = choose|c: usize| c < n && !p@.contains(c) && #[trigger] children_upto(p@, n, n, d)[t] == child(p@, c, n, d);
                    lemma_child_well_placed(p@, c, n, d);
                }
            }
            let items: Vec<(Vec<usize>, usize)> = match self.strategy {
                Strategy::Greedy(h) => {
                    proof {
                        if p@.len() > n {
                            assert(p@[1] < n);
                        }
                    }
                    generate_children(size, &p, h)
                },
                _ => with_zero_scores(&generate_children_extra(size, p.as_slice())),
            };
            proof {
                assert(entry_view(items@) =~= ex);
                assert forall|k: int| 0 <= k < items@.len() implies below((#[trigger] items@[k]).0@, (size + 1) as nat) by {
                    assert(entry_view(items@)[k].0 == kids[k]);
                    assert(well_placed(kids[k], n, d));
                }
            }
            self.admit_all(&items);
            proof {
                added = accepted(ex, ex.len(), o.tracker.visited(), o.tracker.closed());
                lemma_accepted(ex, ex.len(), o.tracker.visited(), o.tracker.closed());
                assert(below(p@, n + 1));
            }
            self.tracker.mark_closed(p.as_slice());
            proof {
                // every child of p is now visited
                assert forall|col: usize| col < n && !p@.contains(col) implies self.tracker.visited().contains(
                    #[trigger] child(p@, col, n, d),
                ) by {
                    lemma_child_listed(p@, n, n, col, d);
                    let t = choose|t: int| 0 <= t < kids.len() && kids[t] == child(p@, col, n, d);
                    assert(items@[t].0@ == kids[t]);
                }
                // the added placements are well placed
                assert forall|j: int| 0 <= j < added.len() implies well_placed((#[trigger] added[j]).0, n, d) by {
                    let t = choose|t: int| 0 <= t < ex.len() && added[j] == #[trigger] ex[t];
                    assert(ex[t].0 == kids[t]);
                }
            }
        }
        let len = self.frontier.len();
        if len > self.open_max {
            self.open_max = len;
        }
        proof {
            let e2 = self.frontier.entries();
            let rest = e.remove(i);
            let v = o.tracker.visited();
            let c = o.tracker.closed();
            let v2 = self.tracker.visited();
            let c2 = self.tracker.closed();
            assert(e2 == rest + added);
            assert(c2 == c.insert(p@));
            assert forall|a: int, b: int| 0 <= a < b < e2.len() implies (#[trigger] e2[a]).0 != (#[trigger] e2[b]).0 by {
                if b < rest.len() {
                    let a0 = if a < i { a } else { a + 1 };
                    let b0 = if b < i { b } else { b + 1 };
                    assert(e2[a] == e[a0] && e2[b] == e[b0]);
                } else if a < rest.len() {
                    let a0 = if a < i { a } else { a + 1 };
                    assert(e2[a] == e[a0]);
                    assert(e2[b] == added[b - rest.len()]);
                    assert(v.contains(e[a0].0));
                } else {
                    assert(e2[a] == added[a - rest.len()] && e2[b] == added[b - rest.len()]);
                }
            }
            assert forall|k: int| 0 <= k < e2.len() implies v2.contains((#[trigger] e2[k]).0) && !c2.contains(e2[k].0) by {
                if k < rest.len() {
                    let k0 = if k < i { k } else { k + 1 };
                    assert(e2[k] == e[k0]);
                    assert(e[k0].0 != e[i].0);
                } else {
                    let j = k - rest.len();
                    assert(e2[k] == added[j]);
                    assert(states_of(added).contains(added[j].0));
                    assert(v.contains(e[i].0));
                }
            }
            assert forall|s: Seq<usize>| #[trigger] v2.contains(s) implies c2.contains(s) || states_of(e2).contains(s) by {
                if v.contains(s) && !c.contains(s) && s != p@ {
                    let k = choose|k: int| 0 <= k < e.len() && (#[trigger] e[k]).0 == s;
                    let k2 = if k < i { k } else { k - 1 };
                    assert(e2[k2] == e[k]);
                } else if !v.contains(s) {
                    let j = choose|j: int| 0 <= j < added.len() && (#[trigger] added[j]).0 == s;
                    assert(e2[rest.len() + j] == added[j]);
                }
            }
            assert forall|s: Seq<usize>| #[trigger] v2.contains(s) implies well_placed(s, n, d) by {
                if !v.contains(s) {
                    let j = choose|j: int| 0 <= j < added.len() && (#[trigger] added[j]).0 == s;
                }
            }
            assert(handled(o, *self, i, Step::Continue));
        }
        Step::Continue
    }

    /// Every placement met has at most `size + 2` rows and values up to
    /// `size`, so the closed set stays below a fixed bound.
    proof fn lemma_closed_bounded(&self)
        requires
            self.inv(),
        ensures
            self.closed().len() <= power((self.size + 2) as nat, (self.size + 2) as nat),
    {
        let n = self.size as nat;
        let d = defer_of(self.strategy);
        self.tracker.lemma_finite();
        assert forall|x: Seq<usize>| #[trigger] self.tracker.closed().contains(x) implies x.len() <= n + 2
            && below(x, n + 1) by {
            assert(self.tracker.visited().contains(x));
            assert(well_placed(x, n, d));
            assert forall|i: int| 0 <= i < x.len() implies #[trigger] x[i] < n + 1 by {
                assert(x[i] < n || x[i] == n);
            }
        }
        lemma_bounded_card(self.tracker.closed(), n + 1, n + 2);
    }

    /// Runs steps until a solution turns up or the frontier is empty.
    pub fn run(&mut self) -> (r: Option<Vec<usize>>)
        requires
            old(self).inv(),
        ensures
            final(self).size() == old(self).size(),
            final(self).strategy() == old(self).strategy(),
            final(self).ready(),
            r is None ==> final(self).inv() && final(self).entries().len() == 0,
            r matches Some(v) ==> found_ok(v@, final(self).size(), final(self).strategy()),
            r is None ==> exhausted_ok(final(self).size(), final(self).strategy()),
            (final(self).snapshot(), opt_view(r)) == run_from(
                old(self).size(),
                old(self).strategy(),
                old(self).snapshot(),
                (step_budget(old(self).size()) - old(self).closed().len()) as nat,
            ),
            final(self).closed().len() <= power(old(self).size() + 2, old(self).size() + 2),
            dedup_sound(final(self).snapshot()),
    {
        let ghost n = self.size as nat;
        let ghost d = defer_of(self.strategy);
        let ghost s0 = self.strategy;
        let ghost bound = power(n + 2, n + 2);
        let ghost goal = run_from(n, s0, self.snapshot(), (step_budget(n) - self.closed().len()) as nat);
        proof {
            self.lemma_closed_bounded();
        }
        loop
            invariant
                self.inv(),
                self.size == n,
                self.strategy == s0,
                self.size == old(self).size,
                self.strategy == old(self).strategy,
                d == defer_of(s0),
                bound == power(n + 2, n + 2),
                self.closed().len() <= bound,
                goal == run_from(n, s0, self.snapshot(), (bound + 1 - self.closed().len()) as nat),
                goal == run_from(
                    old(self).size(),
                    old(self).strategy(),
                    old(self).snapshot(),
                    (step_budget(old(self).size()) - old(self).closed().len()) as nat,
                ),
            decreases bound - self.closed().len(),
        {
            let ghost o = *self;
            let ghost c0 = self.closed();
            let st = self.step();
            match st {
                Step::Found(v) => {
                    proof {
                        let i = choose|i: int|
                            picked(order_of(o.strategy()), o.entries(), i) && handled(o, *self, i, Step::Found(v));
                        lemma_handled_is_next(o, *self, i, Step::Found(v));
                        o.lemma_facts();
                        assert forall|k: int| 0 <= k < self.entries().len() implies !self.closed().contains(
                            #[trigger] self.entries()[k].0,
                        ) by {
                            if k < i {
                                assert(self.entries()[k] == o.entries()[k]);
                            } else {
                                assert(self.entries()[k] == o.entries()[k + 1]);
                            }
                        }
                        let fuel = (bound + 1 - o.closed().len()) as nat;
                        assert(fuel >= 1);
                        assert(o.snapshot().entries.len() > 0);
                        assert(run_from(n, s0, o.snapshot(), fuel) == next_snapshot(n, s0, o.snapshot()));
                        assert(opt_view(Some(v)) == found_view(Step::Found(v)));
                        assert(o.tracker.visited().contains(o.entries()[i].0));
                        assert(well_placed(v@, n, d));
                        assert forall|k: int| 0 <= k < v@.len() implies #[trigger] v@[k] < n by {
                            if v@[k] >= n {
                                assert(k == 0 && v@[0] == n);
                            }
                        }
                    }
                    return Some(v);
                },
                Step::Exhausted => {
                    proof {
                        lemma_exhausted(&*self);
                        self.lemma_facts();
                        assert(self.snapshot().entries.len() == 0);
                        let fuel = (bound + 1 - self.closed().len()) as nat;
                        assert(run_from(n, s0, self.snapshot(), fuel) == (self.snapshot(), None::<Seq<usize>>));
                    }
                    return None;
                },
                Step::Continue => {
                    proof {
                        let i = choose|i: int|
                            picked(order_of(o.strategy()), o.entries(), i) && handled(o, *self, i, Step::Continue);
                        lemma_handled_is_next(o, *self, i, Step::Continue);
                        let p = o.entries()[i].0;
                        assert(!c0.contains(p));
                        o.tracker.lemma_finite();
                        assert(self.closed().len() == c0.len() + 1);
                        self.lemma_closed_bounded();
                    }
                },
            }
        }
    }

    /// The frontier holds no closed placement, and every closed placement
    /// was visited.
    pub proof fn lemma_facts(&self)
        requires
            self.inv(),
        ensures
            forall|k: int|
                0 <= k < self.entries().len() ==> !self.closed().contains(
                    #[trigger] self.entries()[k].0,
                ),
            self.closed().subset_of(self.visited()),
            self.visited().finite(),
            self.closed().finite(),
    {
        self.tracker.lemma_finite();
    }

    /// Number of placements in the frontier.
    pub fn open_len(&self) -> (r: usize)
        requires
            self.ready(),
        ensures
            r == self.entries().len(),
    {
        self.frontier.len()
    }

    /// Number of closed placements.
    pub fn closed_len(&self) -> (r: usize)
        requires
            self.ready(),
        ensures
            r == self.closed().len(),
    {
        self.tracker.closed_len()
    }

    /// The statistics of the search so far, with the given solution count.
    pub fn stats(&self, solutions: usize) -> (r: Stats)
        requires
            self.ready(),
        ensures
            r.algo == self.strategy(),
            r.open_max == self.open_max(),
            r.closed == self.closed().len(),
            r.solutions == solutions,
    {
        Stats {
            algo: self.strategy,
            open_max: self.open_max,
            closed: self.tracker.closed_len(),
            solutions,
        }
    }

    /// A search with the starting placements in its frontier: one per column,
    /// in column order.
    pub fn new(size: usize, strategy: Strategy) -> (r: Self)
        requires
            size_fits(size as nat),
        ensures
            r.inv(),
            r.size() == size,
            r.strategy() == strategy,
            r.open_max() == 0,
            r.closed() == Set::<Seq<usize>>::empty(),
            r.visited() == seeds(size as nat, defer_of(strategy)),
            states_of(r.entries()) == r.visited(),
            r.entries() == initial_entries(size as nat, strategy),
            r.snapshot() == initial_snapshot(size as nat, strategy),
    {
        let ghost n = size as nat;
        let ghost d = defer_of(strategy);
        proof {
            lemma_counts_fit(n);
        }
        assert(size * size <= usize::MAX && size + 2 <= usize::MAX) by (nonlinear_arith)
            requires
                (size + 2) * (size + 2) <= usize::MAX,
        ;
        let items = initial_items(size, strategy);
        let mut r = Search {
            size,
            strategy,
            frontier: Frontier::new(
                match strategy {
                    Strategy::BreadthFirst => Order::Fifo,
                    Strategy::DepthFirst => Order::Lifo,
                    Strategy::Greedy(_) => Order::Best,
                },
            ),
            tracker: DedupTracker::new(size + 1),
            open_max: 0,
        };
        r.admit_all(&items);
        proof {
            let iv = entry_view(items@);
            let acc = accepted(iv, items@.len(), Set::empty(), Set::empty());
            lemma_accepted(iv, items@.len(), Set::empty(), Set::empty());
            assert(r.frontier.entries() =~= acc);
            assert forall|s: Seq<usize>| r.tracker.visited().contains(s) implies seeds(n, d).contains(s) by {
                let j = choose|j: int| 0 <= j < acc.len() && (#[trigger] acc[j]).0 == s;
                let t = choose|t: int| 0 <= t < items@.len() && acc[j] == #[trigger] iv[t];
                assert(iv[t].0 == items@[t].0@);
            }
            assert forall|s: Seq<usize>| seeds(n, d).contains(s) implies r.tracker.visited().contains(s) by {
                let i = choose|i: nat| i < n && s == seed(n, i, d);
                let k = choose|k: int| 0 <= k < items@.len() && (#[trigger] items@[k]).0@ == seed(n, i, d);
            }
            assert(r.tracker.visited() =~= seeds(n, d));
            assert forall|s: Seq<usize>| #[trigger] r.tracker.visited().contains(s) implies well_placed(s, n, d) by {
                let i = choose|i: nat| i < n && s == seed(n, i, d);
            }
            assert forall|i: nat| i < n implies r.tracker.visited().contains(#[trigger] seed(n, i, d)) by {
                assert(seeds(n, d).contains(seed(n, i, d)));
            }
        }
        r
    }
}

/// The abstract state of a search: the frontier's entries in arrival order,
/// the visited and closed sets, and the largest frontier length seen.
pub struct Snapshot {
    pub entries: Seq<(Seq<usize>, nat)>,
    pub visited: Set<Seq<usize>>,
    pub closed: Set<Seq<usize>>,
    pub open_max: nat,
}

/// No placement is both in the frontier and closed, and every closed
/// placement was visited.
pub open spec fn dedup_sound(s: Snapshot) -> bool {
    &&& forall|k: int| 0 <= k < s.entries.len() ==> !s.closed.contains(#[trigger] s.entries[k].0)
    &&& s.closed.subset_of(s.visited)
}

/// The state of a new search.
pub open spec fn initial_snapshot(n: nat, strategy: Strategy) -> Snapshot {
    Snapshot {
        entries: initial_entries(n, strategy),
        visited: seeds(n, defer_of(strategy)),
        closed: Set::empty(),
        open_max: 0,
    }
}

/// The index of the entry that `order` takes out of `e` next.
pub open spec fn pick(order: Order, e: Seq<(Seq<usize>, nat)>) -> int {
    match order {
        Order::Fifo => 0,
        Order::Lifo => e.len() - 1,
        Order::Best => choose|i: int| is_best_index(e, i),
    }
}

/// One step from a state whose frontier is not empty: the state after it
/// and the solution it found, if any.
pub open spec fn next_snapshot(n: nat, strategy: Strategy, s: Snapshot) -> (Snapshot, Option<Seq<usize>>) {
    let i = pick(order_of(strategy), s.entries);
    let p = s.entries[i].0;
    let rest = s.entries.remove(i);
    if p.len() == n && !has_conflict(p) {
        (Snapshot { entries: rest, ..s }, Some(p))
    } else {
        let added = if p.len() == n {
            Seq::<(Seq<usize>, nat)>::empty()
        } else {
            accepted(expansions(strategy, p, n), expansions(strategy, p, n).len(), s.visited, s.closed)
        };
        let e2 = rest + added;
        (
            Snapshot {
                entries: e2,
                visited: s.visited.union(states_of(added)),
                closed: s.closed.insert(p),
                open_max: if s.open_max >= e2.len() {
                    s.open_max
                } else {
                    e2.len()
                },
            },
            None,
        )
    }
}

/// Steps from `s`, at most `fuel` times, until a solution turns up or the
/// frontier is empty: the final state and the solution, if any.
pub open spec fn run_from(n: nat, strategy: Strategy, s: Snapshot, fuel: nat) -> (Snapshot, Option<Seq<usize>>)
    decreases fuel,
{
    if fuel == 0 || s.entries.len() == 0 {
        (s, None)
    } else {
        let next = next_snapshot(n, strategy, s);
        if next.1 is Some {
            next
        } else {
            run_from(n, strategy, next.0, (fuel - 1) as nat)
        }
    }
}

/// More steps than any search on an `n`-wide board takes: each step but the
/// last closes a new placement, and there are at most `(n+2)^(n+2)` of them.
pub open spec fn step_budget(n: nat) -> nat {
    power(n + 2, n + 2) + 1
}

/// The final state and the solution of the search of an `n`-wide board with
/// `strategy`: the first full conflict-free placement taken out of the
/// frontier in the strategy's order.
pub open spec fn search_result(n: nat, strategy: Strategy) -> (Snapshot, Option<Seq<usize>>) {
    run_from(n, strategy, initial_snapshot(n, strategy), step_budget(n))
}

/// The solution a step found, as a plain value.
pub open spec fn found_view(r: Step) -> Option<Seq<usize>> {
    match r {
        Step::Found(v) => Some(v@),
        _ => None,
    }
}

/// An optional placement as a plain value.
pub open spec fn opt_view(r: Option<Vec<usize>>) -> Option<Seq<usize>> {
    match r {
        Some(v) => Some(v@),
        None => None,
    }
}

/// Only one index is picked.
pub proof fn lemma_pick(order: Order, e: Seq<(Seq<usize>, nat)>, i: int)
    requires
        picked(order, e, i),
    ensures
        i == pick(order, e),
{
    if order == Order::Best {
        let j = pick(order, e);
        assert(is_best_index(e, j));
        if j < i {
            assert(e[i].1 < e[j].1);
        } else if i < j {
            assert(e[j].1 < e[i].1);
        }
    }
}

/// A step does what `next_snapshot` says.
pub proof fn lemma_handled_is_next(o: Search, f: Search, i: int, r: Step)
    requires
        picked(order_of(o.strategy()), o.entries(), i),
        handled(o, f, i, r),
    ensures
        f.snapshot() == next_snapshot(o.size(), o.strategy(), o.snapshot()).0,
        found_view(r) == next_snapshot(o.size(), o.strategy(), o.snapshot()).1,
{
    lemma_pick(order_of(o.strategy()), o.entries(), i);
}

/// What a step did after popping entry `i` of `o`'s frontier, leaving `f`.
pub open spec fn handled(o: Search, f: Search, i: int, r: Step) -> bool {
    let p = o.entries()[i].0;
    let n = o.size();
    let rest = o.entries().remove(i);
    if p.len() == n && !has_conflict(p) {
        &&& r matches Step::Found(v) && v@ == p
        &&& f.entries() == rest
        &&& f.visited() == o.visited()
        &&& f.closed() == o.closed()
        &&& f.open_max() == o.open_max()
    } else {
        let added = if p.len() == n {
            Seq::<(Seq<usize>, nat)>::empty()
        } else {
            accepted(
                expansions(o.strategy(), p, n),
                expansions(o.strategy(), p, n).len(),
                o.visited(),
                o.closed(),
            )
        };
        &&& r is Continue
        &&& f.entries() == rest + added
        &&& f.visited() == o.visited().union(states_of(added))
        &&& f.closed() == o.closed().insert(p)
        &&& f.open_max() == if o.open_max() >= f.entries().len() {
            o.open_max()
        } else {
            f.entries().len()
        }
    }
}

/// Each child is `child(s, c, n, defer)` for a column `c` that `s` does not use.
pub proof fn lemma_children_shape(s: Seq<usize>, n: nat, k: nat, defer: bool)
    ensures
        forall|t: int|
            0 <= t < children_upto(s, n, k, defer).len() ==> exists|c: usize|
                c < k && !s.contains(c) && #[trigger] children_upto(s, n, k, defer)[t] == child(
                    s,
                    c,
                    n,
                    defer,
                ),
    decreases k,
{
    if k > 0 {
        lemma_children_shape(s, n, (k - 1) as nat, defer);
        let prev = children_upto(s, n, (k - 1) as nat, defer);
        assert forall|t: int| 0 <= t < children_upto(s, n, k, defer).len() implies exists|c: usize|
            c < k && !s.contains(c) && #[trigger] children_upto(s, n, k, defer)[t] == child(
                s,
                c,
                n,
                defer,
            ) by {
            if t < prev.len() {
                assert(children_upto(s, n, k, defer)[t] == prev[t]);
                let c = choose|c: usize| c < k - 1 && !s.contains(c) && #[trigger] prev[t] == child(s, c, n, defer);
            } else {
                assert(children_upto(s, n, k, defer)[t] == child(s, (k - 1) as usize, n, defer));
            }
        }
    }
}

/// A child of a well-placed, not yet full placement is well placed, and at
/// most one row longer.
pub proof fn lemma_child_well_placed(s: Seq<usize>, c: usize, n: nat, defer: bool)
    requires
        well_placed(s, n, defer),
        s.len() != n,
        c < n,
        !s.contains(c),
    ensures
        well_placed(child(s, c, n, defer), n, defer),
        child(s, c, n, defer).len() <= s.len() + 1,
        child(s, c, n, defer).len() <= n,
{
    let ch = child(s, c, n, defer);
    if defer && s.len() + 1 == n && s.len() > 0 && s[0] == n {
        assert(ch[0] == c);
    } else {
        assert(ch[0] == s[0]);
    }
}

/// What a returned solution satisfies: a full placement on the board
/// without conflicts.
pub open spec fn found_ok(v: Seq<usize>, n: nat, strategy: Strategy) -> bool {
    is_solution(v, n)
}

/// An exhausted search on a non-empty board proves that the board has no
/// solution.
pub open spec fn exhausted_ok(n: nat, strategy: Strategy) -> bool {
    n >= 1 ==> forall|s: Seq<usize>| !is_solution(s, n)
}

/// The columns of a solution are pairwise distinct.
pub proof fn lemma_solution_distinct(sol: Seq<usize>, n: nat)
    requires
        is_solution(sol, n),
    ensures
        forall|a: int, b: int| 0 <= a < b < sol.len() ==> sol[a] != sol[b],
{
    assert forall|a: int, b: int| 0 <= a < b < sol.len() implies sol[a] != sol[b] by {
        assert(!attacks(sol, a, b));
    }
}

proof fn lemma_prefix_closed(srch: &Search, sol: Seq<usize>, k: nat)
    requires
        srch.inv(),
        srch.entries().len() == 0,
        !defer_of(srch.strategy()) || srch.size() < 3,
        is_solution(sol, srch.size()),
        1 <= k <= srch.size(),
    ensures
        srch.closed().contains(sol.subrange(0, k as int)),
    decreases k,
{
    let n = srch.size();
    let v = srch.visited();
    let c = srch.closed();
    let e = srch.entries();
    let d = defer_of(srch.strategy());
    if k == 1 {
        assert(seed(n, sol[0] as nat, d) == sol.subrange(0, 1));
        assert(v.contains(seed(n, sol[0] as nat, d)));
        if !c.contains(sol.subrange(0, 1)) {
            assert(states_of(e).contains(sol.subrange(0, 1)));
        }
    } else {
        lemma_prefix_closed(srch, sol, (k - 1) as nat);
        let q = sol.subrange(0, k - 1);
        let col = sol[k - 1];
        lemma_solution_distinct(sol, n);
        assert(!q.contains(col)) by {
            if q.contains(col) {
                let j = choose|j: int| 0 <= j < q.len() && q[j] == col;
                assert(sol[j] == col);
            }
        }
        assert(q[0] == sol[0]);
        assert(child(q, col, n, d) == sol.subrange(0, k as int));
        assert(v.contains(child(q, col, n, d)));
        if !c.contains(sol.subrange(0, k as int)) {
            assert(states_of(e).contains(sol.subrange(0, k as int)));
        }
    }
}

proof fn lemma_deferred_closed(srch: &Search, sol: Seq<usize>, k: nat)
    requires
        srch.inv(),
        srch.entries().len() == 0,
        defer_of(srch.strategy()),
        is_solution(sol, srch.size()),
        srch.size() >= 3,
        2 <= k <= srch.size() - 1,
    ensures
        srch.closed().contains(seq![srch.size() as usize] + sol.subrange(1, k as int)),
    decreases k,
{
    let n = srch.size();
    let v = srch.visited();
    let c = srch.closed();
    let e = srch.entries();
    let goal = seq![n as usize] + sol.subrange(1, k as int);
    if k == 2 {
        assert(seed(n, sol[1] as nat, true) == goal);
        assert(v.contains(seed(n, sol[1] as nat, true)));
    } else {
        lemma_deferred_closed(srch, sol, (k - 1) as nat);
        let q = seq![n as usize] + sol.subrange(1, k - 1);
        let col = sol[k - 1];
        lemma_solution_distinct(sol, n);
        assert(!q.contains(col)) by {
            if q.contains(col) {
                let j = choose|j: int| 0 <= j < q.len() && q[j] == col;
                if j > 0 {
                    assert(q[j] == sol[j]);
                }
            }
        }
        assert(child(q, col, n, true) =~= goal);
        assert(v.contains(child(q, col, n, true)));
    }
    if !c.contains(goal) {
        assert(states_of(e).contains(goal));
    }
}

/// With the frontier empty, no solution can exist.
proof fn lemma_exhausted(srch: &Search)
    requires
        srch.inv(),
        srch.entries().len() == 0,
    ensures
        exhausted_ok(srch.size(), srch.strategy()),
{
    let n = srch.size();
    let d = defer_of(srch.strategy());
    let v = srch.visited();
    let c = srch.closed();
    let e = srch.entries();
    if n >= 1 {
        assert forall|sol: Seq<usize>| !is_solution(sol, n) by {
            if is_solution(sol, n) {
                lemma_solution_distinct(sol, n);
                if !d || n < 3 {
                    lemma_prefix_closed(srch, sol, n);
                    assert(sol.subrange(0, n as int) == sol);
                } else {
                    lemma_deferred_closed(srch, sol, (n - 1) as nat);
                    let q = seq![n as usize] + sol.subrange(1, n - 1);
                    assert(!q.contains(sol[0])) by {
                        if q.contains(sol[0]) {
                            let j = choose|j: int| 0 <= j < q.len() && q[j] == sol[0];
                            if j > 0 {
                                assert(q[j] == sol[j]);
                            }
                        }
                    }
                    let q2 = child(q, sol[0], n, true);
                    assert(q2 =~= sol.subrange(0, n - 1));
                    assert(v.contains(q2));
                    if !c.contains(q2) {
                        assert(states_of(e).contains(q2));
                    }
                    assert(!q2.contains(sol[n - 1])) by {
                        if q2.contains(sol[n - 1]) {
                            let j = choose|j: int| 0 <= j < q2.len() && q2[j] == sol[n - 1];
                            assert(q2[j] == sol[j]);
                        }
                    }
                    assert(child(q2, sol[n - 1], n, true) =~= sol);
                    assert(v.contains(sol));
                    if !c.contains(sol) {
                        assert(states_of(e).contains(sol));
                    }
                }
            }
        }
    }
}

/// Statistics of a run.
#[derive(Clone, Copy, Debug, PartialEq, Eq, Structural)]
pub struct Stats {
    /// The strategy searched with.
    pub algo: Strategy,
    /// Largest frontier length seen at the end of a step.
    pub open_max: usize,
    /// Number of closed placements.
    pub closed: usize,
    /// Number of solutions found (0 or 1: the search stops at the first).
    pub solutions: usize,
}

/// Searches a board of `size` columns with `strategy` until the first
/// solution: the first full conflict-free placement taken out of the
/// frontier in the strategy's order. Returns the statistics of the run and
/// the solution, if there is one.
pub fn solve(size: usize, strategy: Strategy) -> (r: (Stats, Option<Vec<usize>>))
    requires
        size_fits(size as nat),
    ensures
        r.0.algo == strategy,
        r.0.solutions == if r.1 is Some {
            1usize
        } else {
            0usize
        },
        r.1 matches Some(v) ==> found_ok(v@, size as nat, strategy),
        r.1 is None ==> exhausted_ok(size as nat, strategy),
        opt_view(r.1) == search_result(size as nat, strategy).1,
        r.0.closed == search_result(size as nat, strategy).0.closed.len(),
        r.0.open_max == search_result(size as nat, strategy).0.open_max,
        r.0.closed <= power((size + 2) as nat, (size + 2) as nat),
        dedup_sound(search_result(size as nat, strategy).0),
{
    let mut search = Search::new(size, strategy);
    proof {
        assert(search.closed().len() == 0);
    }
    let solution = search.run();
    let solutions: usize = match &solution {
        Some(_) => 1,
        None => 0,
    };
    (search.stats(solutions), solution)
}

/// Greedy best-first search of a board of `size` columns, ordered by
/// `heuristic`.
pub fn solver(size: usize, heuristic: Heuristic) -> (r: (Stats, Option<Vec<usize>>))
    requires
        size_fits(size as nat),
    ensures
        r.0.algo == Strategy::Greedy(heuristic),
        r.0.solutions == if r.1 is Some {
            1usize
        } else {
            0usize
        },
        r.1 matches Some(v) ==> found_ok(v@, size as nat, Strategy::Greedy(heuristic)),
        r.1 is None ==> exhausted_ok(size as nat, Strategy::Greedy(heuristic)),
        opt_view(r.1) == search_result(size as nat, Strategy::Greedy(heuristic)).1,
        r.0.closed == search_result(size as nat, Strategy::Greedy(heuristic)).0.closed.len(),
        r.0.open_max == search_result(size as nat, Strategy::Greedy(heuristic)).0.open_max,
        r.0.closed <= power((size + 2) as nat, (size + 2) as nat),
        dedup_sound(search_result(size as nat, Strategy::Greedy(heuristic)).0),
{
    solve(size, Strategy::Greedy(heuristic))
}

/// The uninformed traversals.
#[derive(Clone, Copy, Debug, PartialEq, Eq, Structural)]
pub enum Traversal {
    /// Oldest placement first.
    BreadthFirst,
    /// Newest placement first.
    DepthFirst,
}

/// The strategy of a traversal.
pub open spec fn traversal_strategy(alg: Traversal) -> Strategy {
    match alg {
        Traversal::BreadthFirst => Strategy::BreadthFirst,
        Traversal::DepthFirst => Strategy::DepthFirst,
    }
}

/// Breadth- or depth-first search of a board of `size` columns.
pub fn solver_extra(size: usize, alg: Traversal) -> (r: (Stats, Option<Vec<usize>>))
    requires
        size_fits(size as nat),
    ensures
        r.0.algo == traversal_strategy(alg),
        r.0.solutions == if r.1 is Some {
            1usize
        } else {
            0usize
        },
        r.1 matches Some(v) ==> found_ok(v@, size as nat, traversal_strategy(alg)),
        r.1 is None ==> exhausted_ok(size as nat, traversal_strategy(alg)),
        opt_view(r.1) == search_result(size as nat, traversal_strategy(alg)).1,
        r.0.closed == search_result(size as nat, traversal_strategy(alg)).0.closed.len(),
        r.0.open_max == search_result(size as nat, traversal_strategy(alg)).0.open_max,
        r.0.closed <= power((size + 2) as nat, (size + 2) as nat),
        dedup_sound(search_result(size as nat, traversal_strategy(alg)).0),
{
    let strategy = match alg {
        Traversal::BreadthFirst => Strategy::BreadthFirst,
        Traversal::DepthFirst => Strategy::DepthFirst,
    };
    solve(size, strategy)
}

/// The accepted entries are distinct, new to both sets, and among those offered.
pub proof fn lemma_accepted(
    items: Seq<(Seq<usize>, nat)>,
    k: nat,
    v: Set<Seq<usize>>,
    c: Set<Seq<usize>>,
)
    ensures
        ({
            let acc = accepted(items, k, v, c);
            &&& forall|a: int, b: int| 0 <= a < b < acc.len() ==> (#[trigger] acc[a]).0 != (#[trigger] acc[b]).0
            &&& forall|j: int| 0 <= j < acc.len() ==> !v.contains((#[trigger] acc[j]).0) && !c.contains(acc[j].0)
            &&& forall|j: int| 0 <= j < acc.len() ==> exists|t: int| 0 <= t < items.len() && #[trigger] acc[j] == #[trigger] items[t]
        }),
    decreases k,
{
    if k == 0 || k > items.len() {
    } else {
        lemma_accepted(items, (k - 1) as nat, v, c);
        let prev = accepted(items, (k - 1) as nat, v, c);
        let acc = accepted(items, k, v, c);
        let x = items[k - 1];
        if !(v.contains(x.0) || c.contains(x.0) || states_of(prev).contains(x.0)) {
            assert forall|a: int, b: int| 0 <= a < b < acc.len() implies (#[trigger] acc[a]).0 != (#[trigger] acc[b]).0 by {
                if b == prev.len() {
                    assert(acc[a] == prev[a]);
                    if acc[a].0 == x.0 {
                        assert(states_of(prev).contains(x.0));
                    }
                } else {
                    assert(acc[a] == prev[a] && acc[b] == prev[b]);
                }
            }
            assert forall|j: int| 0 <= j < acc.len() implies exists|t: int| 0 <= t < items.len() && #[trigger] acc[j] == #[trigger] items[t] by {
                if j == prev.len() {
                    assert(acc[j] == items[k - 1]);
                } else {
                    assert(acc[j] == prev[j]);
                }
            }
        }
    }
}

} // verus!
