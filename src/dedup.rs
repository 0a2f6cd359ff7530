//! The closed and visited sets of a search, kept in a trie over columns.
use vstd::prelude::*;
use vstd::set_lib::{lemma_int_range, lemma_len_subset, set_int_range};
use vstd::slice::slice_to_vec;

verus! {

/// `p` starts with `q`.
pub open spec fn extends(p: Seq<usize>, q: Seq<usize>) -> bool {
    q.len() <= p.len() && p.subrange(0, q.len() as int) == q
}

/// Every value of `s` is below `w`.
pub open spec fn below(s: Seq<usize>, w: nat) -> bool {
    forall|i: int| 0 <= i < s.len() ==> #[trigger] s[i] < w
}

/// Tracks which placements were ever put in the frontier (visited) and
/// which were taken out and dealt with (closed). Node 0 stands for the empty
/// placement; `next[i][c]` is the node one column `c` further, or 0.
pub struct DedupTracker {
    width: usize,
    next: Vec<Vec<usize>>,
    visited_flag: Vec<bool>,
    closed_flag: Vec<bool>,
    closed_count: usize,
    paths: Ghost<Seq<Seq<usize>>>,
    closed_ids: Ghost<Set<int>>,
    visited_set: Ghost<Set<Seq<usize>>>,
    closed_set: Ghost<Set<Seq<usize>>>,
}

impl DedupTracker {
    /// Placements ever accepted into the frontier.
    pub closed spec fn visited(&self) -> Set<Seq<usize>> {
        self.visited_set@
    }

    /// Placements taken out of the frontier and dealt with.
    pub closed spec fn closed(&self) -> Set<Seq<usize>> {
        self.closed_set@
    }

    /// Number of columns (values) that a placement may use.
    pub closed spec fn width(&self) -> nat {
        self.width as nat
    }

    /// Well-formedness: each node's path extends its parent's by the edge's
    /// column, no node lies below a missing edge, paths are distinct, and the
    /// sets and the count agree with the flags.
    pub closed spec fn wf(&self) -> bool {
        let len = self.next@.len();
        &&& len >= 1
        &&& self.visited_flag@.len() == len
        &&& self.closed_flag@.len() == len
        &&& self.paths@.len() == len
        &&& self.paths@[0] == Seq::<usize>::empty()
        &&& forall|i: int| 0 <= i < len ==> (#[trigger] self.next@[i])@.len() == self.width
        &&& forall|i: int, c: int|
            0 <= i < len && 0 <= c < self.width && #[trigger] self.next@[i]@[c] != 0 ==> {
                &&& self.next@[i]@[c] < len
                &&& self.paths@[self.next@[i]@[c] as int] == self.paths@[i].push(c as usize)
            }
        &&& forall|i: int, c: int, j: int|
            #![trigger self.next@[i]@[c], self.paths@[j]]
            0 <= i < len && 0 <= c < self.width && 0 <= j < len && self.next@[i]@[c] == 0
                ==> !extends(self.paths@[j], self.paths@[i].push(c as usize))
        &&& forall|i: int, j: int|
            0 <= i < len && 0 <= j < len && i != j ==> #[trigger] self.paths@[i]
                != #[trigger] self.paths@[j]
        &&& forall|s: Seq<usize>|
            #[trigger] self.visited_set@.contains(s) <==> exists|i: int|
                0 <= i < len && #[trigger] self.paths@[i] == s && self.visited_flag@[i]
        &&& forall|s: Seq<usize>|
            #[trigger] self.closed_set@.contains(s) <==> exists|i: int|
                0 <= i < len && #[trigger] self.paths@[i] == s && self.closed_flag@[i]
        &&& forall|i: int| #[trigger]
            self.closed_ids@.contains(i) <==> 0 <= i < len && self.closed_flag@[i]
        &&& self.closed_ids@.finite()
        &&& self.closed_set@.finite()
        &&& self.visited_set@.finite()
        &&& self.closed_count == self.closed_ids@.len()
        &&& self.closed_count == self.closed_set@.len()
    }

    /// An empty tracker for placements whose values are below `width`.
    pub fn new(width: usize) -> (r: Self)
        ensures
            r.wf(),
            r.width() == width,
            r.visited() == Set::<Seq<usize>>::empty(),
            r.closed() == Set::<Seq<usize>>::empty(),
    {
        let row = Self::empty_row(width);
        let mut next: Vec<Vec<usize>> = Vec::new();
        next.push(row);
        let mut visited_flag: Vec<bool> = Vec::new();
        visited_flag.push(false);
        let mut closed_flag: Vec<bool> = Vec::new();
        closed_flag.push(false);
        let ghost paths = seq![Seq::<usize>::empty()];
        let ghost no_ids = Set::<int>::empty();
        let ghost no_states = Set::<Seq<usize>>::empty();
        let r = DedupTracker {
            width,
            next,
            visited_flag,
            closed_flag,
            closed_count: 0,
            paths: Ghost(paths),
            closed_ids: Ghost(no_ids),
            visited_set: Ghost(no_states),
            closed_set: Ghost(no_states),
        };
        proof {
            assert forall|s: Seq<usize>| #[trigger] r.closed_set@.contains(s) <==> exists|i: int|
                0 <= i < 1 && #[trigger] r.paths@[i] == s && r.closed_flag@[i] by {
                if exists|i: int| 0 <= i < 1 && #[trigger] r.paths@[i] == s && r.closed_flag@[i] {
                    let i = choose|i: int| 0 <= i < 1 && #[trigger] r.paths@[i] == s && r.closed_flag@[i];
                    assert(!r.closed_flag@[i]);
                }
            }
            assert forall|s: Seq<usize>| #[trigger] r.visited_set@.contains(s) <==> exists|i: int|
                0 <= i < 1 && #[trigger] r.paths@[i] == s && r.visited_flag@[i] by {
                if exists|i: int| 0 <= i < 1 && #[trigger] r.paths@[i] == s && r.visited_flag@[i] {
                    let i = choose|i: int| 0 <= i < 1 && #[trigger] r.paths@[i] == s && r.visited_flag@[i];
                    assert(!r.visited_flag@[i]);
                }
            }
        }
        r
    }

    /// Both sets are finite.
    pub proof fn lemma_finite(&self)
        requires
            self.wf(),
        ensures
            self.visited().finite(),
            self.closed().finite(),
    {
    }

    /// Number of closed placements.
    pub fn closed_len(&self) -> (r: usize)
        requires
            self.wf(),
        ensures
            r == self.closed().len(),
    {
        self.closed_count
    }

    /// Accepts `s` into the visited set unless it is already visited or
    /// closed; tells whether it was accepted.
    pub fn should_enqueue(&mut self, s: &[usize]) -> (r: bool)
        requires
            old(self).wf(),
            below(s@, old(self).width()),
        ensures
            final(self).wf(),
            final(self).width() == old(self).width(),
            r == !(old(self).visited().contains(s@) || old(self).closed().contains(s@)),
            final(self).visited() == if r {
                old(self).visited().insert(s@)
            } else {
                old(self).visited()
            },
            final(self).closed() == old(self).closed(),
    {
        let k = self.locate(s);
        proof {
            if self.visited_set@.contains(s@) {
                let i = choose|i: int|
                    0 <= i < self.next@.len() && #[trigger] self.paths@[i] == s@
                        && self.visited_flag@[i];
                assert(i == k);
            }
            if self.closed_set@.contains(s@) {
                let i = choose|i: int|
                    0 <= i < self.next@.len() && #[trigger] self.paths@[i] == s@
                        && self.closed_flag@[i];
                assert(i == k);
            }
            assert(self.paths@[k as int] == s@);
        }
        if self.visited_flag[k] || self.closed_flag[k] {
            return false;
        }
        let ghost o = *self;
        self.visited_flag.set(k, true);
        self.visited_set = Ghost(self.visited_set@.insert(s@));
        proof {
            assert forall|x: Seq<usize>|
                #[trigger] self.visited_set@.contains(x) <==> exists|i: int|
                    0 <= i < self.next@.len() && #[trigger] self.paths@[i] == x
                        && self.visited_flag@[i] by {
                if x == s@ {
                    assert(self.paths@[k as int] == x && self.visited_flag@[k as int]);
                } else if o.visited_set@.contains(x) {
                    let i = choose|i: int|
                        0 <= i < o.next@.len() && #[trigger] o.paths@[i] == x && o.visited_flag@[i];
                    assert(self.paths@[i] == x && self.visited_flag@[i]);
                } else if exists|i: int|
                    0 <= i < self.next@.len() && #[trigger] self.paths@[i] == x
                        && self.visited_flag@[i] {
                    let i = choose|i: int|
                        0 <= i < self.next@.len() && #[trigger] self.paths@[i] == x
                            && self.visited_flag@[i];
                    assert(i != k);
                    assert(o.paths@[i] == x && o.visited_flag@[i]);
                }
            }
        }
        true
    }

    /// Adds `s` to the closed set.
    pub fn mark_closed(&mut self, s: &[usize])
        requires
            old(self).wf(),
            below(s@, old(self).width()),
        ensures
            final(self).wf(),
            final(self).width() == old(self).width(),
            final(self).visited() == old(self).visited(),
            final(self).closed() == old(self).closed().insert(s@),
    {
        let k = self.locate(s);
        proof {
            if self.closed_set@.contains(s@) {
                let i = choose|i: int|
                    0 <= i < self.next@.len() && #[trigger] self.paths@[i] == s@
                        && self.closed_flag@[i];
                assert(i == k);
            }
        }
        if self.closed_flag[k] {
            proof {
                assert(self.closed_set@.contains(s@)) by {
                    assert(self.paths@[k as int] == s@);
                }
                assert(self.closed_set@.insert(s@) =~= self.closed_set@);
            }
            return;
        }
        let ghost o = *self;
        let ghost len = self.next@.len() as int;
        let l = self.next.len();
        proof {
            assert(!self.closed_ids@.contains(k as int));
            assert(self.closed_ids@.insert(k as int).subset_of(set_int_range(0, len)));
            lemma_int_range(0, len);
            lemma_len_subset(self.closed_ids@.insert(k as int), set_int_range(0, len));
            assert(!self.closed_ids@.contains(k as int));
        }
        self.closed_flag.set(k, true);
        self.closed_count = self.closed_count + 1;
        self.closed_set = Ghost(self.closed_set@.insert(s@));
        self.closed_ids = Ghost(self.closed_ids@.insert(k as int));
        proof {
            assert(!o.closed_set@.contains(s@));
            assert forall|x: Seq<usize>|
                #[trigger] self.closed_set@.contains(x) <==> exists|i: int|
                    0 <= i < self.next@.len() && #[trigger] self.paths@[i] == x
                        && self.closed_flag@[i] by {
                if x == s@ {
                    assert(self.paths@[k as int] == x && self.closed_flag@[k as int]);
                } else if o.closed_set@.contains(x) {
                    let i = choose|i: int|
                        0 <= i < o.next@.len() && #[trigger] o.paths@[i] == x && o.closed_flag@[i];
                    assert(self.paths@[i] == x && self.closed_flag@[i]);
                } else if exists|i: int|
                    0 <= i < self.next@.len() && #[trigger] self.paths@[i] == x
                        && self.closed_flag@[i] {
                    let i = choose|i: int|
                        0 <= i < self.next@.len() && #[trigger] self.paths@[i] == x
                            && self.closed_flag@[i];
                    assert(i != k);
                    assert(o.paths@[i] == x && o.closed_flag@[i]);
                }
            }
        }
    }

    /// The node for `s`, creating the missing nodes on its way; no set changes.
    fn locate(&mut self, s: &[usize]) -> (k: usize)
        requires
            old(self).wf(),
            below(s@, old(self).width as nat),
        ensures
            final(self).wf(),
            final(self).width == old(self).width,
            final(self).visited_set == old(self).visited_set,
            final(self).closed_set == old(self).closed_set,
            final(self).closed_ids == old(self).closed_ids,
            final(self).closed_count == old(self).closed_count,
            k < final(self).next@.len(),
            final(self).paths@[k as int] == s@,
            old(self).next@.len() <= final(self).next@.len(),
            forall|i: int|
                0 <= i < old(self).next@.len() ==> #[trigger] final(self).paths@[i]
                    == old(self).paths@[i],
            forall|i: int|
                0 <= i < final(self).next@.len() ==> #[trigger] final(self).visited_flag@[i] == (i
                    < old(self).next@.len() && old(self).visited_flag@[i]),
            forall|i: int|
                0 <= i < final(self).next@.len() ==> #[trigger] final(self).closed_flag@[i] == (i
                    < old(self).next@.len() && old(self).closed_flag@[i]),
    {
        let ghost old_len = self.next@.len();
        let ghost first = *self;
        let mut cur: usize = 0;
        let mut d: usize = 0;
        while d < s.len()
            invariant
                self.wf(),
                below(s@, self.width as nat),
                self.width == first.width,
                self.visited_set == first.visited_set,
                self.closed_set == first.closed_set,
                self.closed_ids == first.closed_ids,
                self.closed_count == first.closed_count,
                old_len == first.next@.len(),
                old_len <= self.next@.len(),
                d <= s@.len(),
                cur < self.next@.len(),
                self.paths@[cur as int] == s@.subrange(0, d as int),
                forall|i: int|
                    0 <= i < old_len ==> #[trigger] self.paths@[i] == first.paths@[i],
                forall|i: int|
                    0 <= i < self.next@.len() ==> #[trigger] self.visited_flag@[i] == (i < old_len
                        && first.visited_flag@[i]),
                forall|i: int|
                    0 <= i < self.next@.len() ==> #[trigger] self.closed_flag@[i] == (i < old_len
                        && first.closed_flag@[i]),
            decreases s@.len() - d,
        {
            let c = s[d];
            assert(s@[d as int] < self.width);
            let nxt = self.next[cur][c];
            if nxt == 0 {
                self.add_node(cur, c);
                cur = self.next.len() - 1;
            } else {
                cur = nxt;
            }
            assert(s@.subrange(0, d + 1) == s@.subrange(0, d as int).push(c));
            d += 1;
        }
        assert(s@.subrange(0, s@.len() as int) == s@);
        cur
    }

    /// Adds the node one column `c` below node `cur`, where none was.
    fn add_node(&mut self, cur: usize, c: usize)
        requires
            old(self).wf(),
            cur < old(self).next@.len(),
            c < old(self).width,
            old(self).next@[cur as int]@[c as int] == 0,
        ensures
            final(self).wf(),
            final(self).width == old(self).width,
            final(self).visited_set == old(self).visited_set,
            final(self).closed_set == old(self).closed_set,
            final(self).closed_ids == old(self).closed_ids,
            final(self).closed_count == old(self).closed_count,
            final(self).next@.len() == old(self).next@.len() + 1,
            final(self).paths@ == old(self).paths@.push(old(self).paths@[cur as int].push(c)),
            final(self).visited_flag@ == old(self).visited_flag@.push(false),
            final(self).closed_flag@ == old(self).closed_flag@.push(false),
            final(self).next@[cur as int]@[c as int] == old(self).next@.len(),
    {
        let ghost o = *self;
        let ghost len = self.next@.len();
        let ghost p = self.paths@[cur as int].push(c);
        let new = self.next.len();
        let row = Self::empty_row(self.width);
        self.next.push(row);
        self.visited_flag.push(false);
        self.closed_flag.push(false);
        self.paths = Ghost(self.paths@.push(p));
        let mut r = slice_to_vec(self.next[cur].as_slice());
        r.set(c, new);
        self.next.set(cur, r);
        proof {
            let n = self.next@;
            let ps = self.paths@;
            assert forall|i: int, cc: int|
                0 <= i < len + 1 && 0 <= cc < self.width && #[trigger] n[i]@[cc] != 0 implies {
                &&& n[i]@[cc] < len + 1
                &&& ps[n[i]@[cc] as int] == ps[i].push(cc as usize)
            } by {
                if i == cur && cc == c {
                } else if i < len {
                    assert(o.next@[i]@[cc] == n[i]@[cc]);
                }
            }
            assert forall|i: int, cc: int, j: int|
                #![trigger n[i]@[cc], ps[j]]
                0 <= i < len + 1 && 0 <= cc < self.width && 0 <= j < len + 1 && n[i]@[cc] == 0
                    implies !extends(ps[j], ps[i].push(cc as usize)) by {
                let q = ps[i].push(cc as usize);
                if i == len {
                    assert(ps[i] == p);
                    if j < len && extends(ps[j], q) {
                        assert(ps[j] == o.paths@[j]);
                        assert(ps[j].subrange(0, p.len() as int) =~= p);
                        assert(o.next@[cur as int]@[c as int] == 0);
                        assert(extends(o.paths@[j], o.paths@[cur as int].push(c)));
                    }
                    assert(!extends(ps[j], q));
                } else {
                    assert(ps[i] == o.paths@[i]);
                    if i == cur && cc == c {
                        assert(n[i]@[cc] == len);
                    }
                    assert(o.next@[i]@[cc] == 0);
                    if j < len {
                        assert(ps[j] == o.paths@[j]);
                        assert(!extends(o.paths@[j], o.paths@[i].push(cc as usize)));
                    } else if extends(p, q) {
                        assert(ps[j] == p);
                        if q.len() == p.len() {
                            assert(q.drop_last() =~= o.paths@[i]);
                            assert(p.drop_last() =~= o.paths@[cur as int]);
                            assert(q =~= p);
                            assert(i == cur);
                            assert(q.last() == cc as usize && p.last() == c);
                            assert(n[i]@[cc] == len);
                        } else {
                            assert(o.paths@[cur as int].subrange(0, q.len() as int) =~= q);
                            assert(extends(o.paths@[cur as int], o.paths@[i].push(cc as usize)));
                        }
                    }
                }
            }
            assert forall|i: int, j: int|
                0 <= i < len + 1 && 0 <= j < len + 1 && i != j implies #[trigger] ps[i]
                    != #[trigger] ps[j] by {
                if i == len && ps[i] == ps[j] {
                    assert(o.next@[cur as int]@[c as int] == 0);
                    assert(ps[j].subrange(0, p.len() as int) == p);
                    assert(extends(o.paths@[j], o.paths@[cur as int].push(c)));
                }
                if j == len && ps[i] == ps[j] {
                    assert(o.next@[cur as int]@[c as int] == 0);
                    assert(ps[i].subrange(0, p.len() as int) == p);
                    assert(extends(o.paths@[i], o.paths@[cur as int].push(c)));
                }
            }
            assert forall|s: Seq<usize>|
                #[trigger] self.visited_set@.contains(s) <==> exists|i: int|
                    0 <= i < len + 1 && #[trigger] ps[i] == s && self.visited_flag@[i] by {
                if self.visited_set@.contains(s) {
                    let i = choose|i: int|
                        0 <= i < len && #[trigger] o.paths@[i] == s && o.visited_flag@[i];
                    assert(ps[i] == s && self.visited_flag@[i]);
                }
            }
            assert forall|s: Seq<usize>|
                #[trigger] self.closed_set@.contains(s) <==> exists|i: int|
                    0 <= i < len + 1 && #[trigger] ps[i] == s && self.closed_flag@[i] by {
                if self.closed_set@.contains(s) {
                    let i = choose|i: int|
                        0 <= i < len && #[trigger] o.paths@[i] == s && o.closed_flag@[i];
                    assert(ps[i] == s && self.closed_flag@[i]);
                }
            }
        }
    }

    fn empty_row(width: usize) -> (r: Vec<usize>)
        ensures
            r@.len() == width,
            forall|c: int| 0 <= c < width ==> r@[c] == 0,
    {
        let mut row: Vec<usize> = Vec::new();
        let mut k: usize = 0;
        while k < width
            invariant
                k <= width,
                row@.len() == k,
                forall|c: int| 0 <= c < k ==> row@[c] == 0,
            decreases width - k,
        {
            row.push(0);
            k += 1;
        }
        row
    }
}

} // verus!
