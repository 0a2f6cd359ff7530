//! The frontier: placements waiting to be expanded, in the order that the
//! chosen traversal takes them out.
use std::collections::VecDeque;
use priority_queue::DoublePriorityQueue;
use vstd::prelude::*;
use vstd::slice::slice_to_vec;

verus! {

#[verifier::external_type_specification]
#[verifier::external_body]
#[verifier::reject_recursive_types(I)]
#[verifier::reject_recursive_types(P)]
#[verifier::reject_recursive_types(H)]
pub struct ExDoublePriorityQueue<I, P, H>(DoublePriorityQueue<I, P, H>);

/// The priority queue of the best-first order: items are arena indices,
/// priorities are (score, index) pairs.
pub type ScoreQueue = DoublePriorityQueue<usize, Prio>;

/// A score paired with the arrival index that breaks ties.
pub type Prio = (usize, usize);

/// What the queue holds: each item with its priority.
pub uninterp spec fn queue_entries(q: ScoreQueue) -> Map<usize, (usize, usize)>;

/// Lexicographic order of pairs, the order of `(usize, usize)`.
pub open spec fn prio_le(a: (usize, usize), b: (usize, usize)) -> bool {
    a.0 < b.0 || (a.0 == b.0 && a.1 <= b.1)
}

/// Relies on `DoublePriorityQueue::new`: an empty queue.
#[verifier::external_body]
fn queue_new() -> (r: ScoreQueue)
    ensures
        queue_entries(r).dom() == Set::<usize>::empty(),
{
    DoublePriorityQueue::new()
}

/// Relies on `DoublePriorityQueue::len`: the number of items.
#[verifier::external_body]
fn queue_len(q: &ScoreQueue) -> (r: usize)
    ensures
        r == queue_entries(*q).len(),
{
    q.len()
}

/// Relies on `DoublePriorityQueue::push`: the item gets the priority (an
/// item already held has its priority replaced, and the old one returned).
#[verifier::external_body]
fn queue_push(q: &mut ScoreQueue, item: usize, priority: (
    usize,
    usize,
)) -> (r: Option<(usize, usize)>)
    ensures
        queue_entries(*final(q)) == queue_entries(*old(q)).insert(item, priority),
        r == if queue_entries(*old(q)).contains_key(item) {
            Some(queue_entries(*old(q))[item])
        } else {
            None
        },
{
    q.push(item, priority)
}

/// Relies on `DoublePriorityQueue::pop_min`: removes and returns an item of
/// lowest priority, or `None` when the queue is empty.
#[verifier::external_body]
fn queue_pop_min(q: &mut ScoreQueue) -> (r: Option<
    (usize, (usize, usize)),
>)
    ensures
        r.is_none() == (queue_entries(*old(q)).dom() == Set::<usize>::empty()),
        r.is_none() ==> queue_entries(*final(q)) == queue_entries(*old(q)),
        r matches Some((item, p)) ==> {
            &&& queue_entries(*old(q)).contains_key(item)
            &&& queue_entries(*old(q))[item] == p
            &&& forall|k: usize| #[trigger]
                queue_entries(*old(q)).contains_key(k) ==> prio_le(p, queue_entries(*old(q))[k])
            &&& queue_entries(*final(q)) == queue_entries(*old(q)).remove(item)
        },
{
    q.pop_min()
}

/// How the frontier orders its placements.
#[derive(Clone, Copy, Debug, PartialEq, Eq, Structural)]
pub enum Order {
    /// Oldest first: breadth-first search.
    Fifo,
    /// Newest first: depth-first search.
    Lifo,
    /// Lowest score first, the oldest among equal scores: greedy best-first search.
    Best,
}

/// Entry `i` has the lowest score, and every entry before it a higher one.
pub open spec fn is_best_index(e: Seq<(Seq<usize>, nat)>, i: int) -> bool {
    &&& 0 <= i < e.len()
    &&& forall|j: int| 0 <= j < e.len() ==> e[i].1 <= #[trigger] e[j].1
    &&& forall|j: int| 0 <= j < i ==> e[i].1 < #[trigger] e[j].1
}

/// Entry `i` of `e` is the one that `order` takes out next.
pub open spec fn picked(order: Order, e: Seq<(Seq<usize>, nat)>, i: int) -> bool {
    match order {
        Order::Fifo => e.len() > 0 && i == 0,
        Order::Lifo => e.len() > 0 && i == e.len() - 1,
        Order::Best => is_best_index(e, i),
    }
}

/// A frontier of placements with their scores, in order of arrival.
pub struct Frontier {
    order: Order,
    deque: VecDeque<Vec<usize>>,
    queue: ScoreQueue,
    arena: Vec<Vec<usize>>,
    entries: Ghost<Seq<(Seq<usize>, nat)>>,
    live: Ghost<Seq<usize>>,
}

impl Frontier {
    /// The placements held with their scores, oldest first.
    pub closed spec fn entries(&self) -> Seq<(Seq<usize>, nat)> {
        self.entries@
    }

    /// The order the frontier takes placements out in.
    pub closed spec fn order(&self) -> Order {
        self.order
    }

    /// Well-formedness: the container of the order holds exactly the
    /// entries, in arrival order (for the queue: keyed by increasing arena
    /// index, with priority (score, index)).
    pub closed spec fn wf(&self) -> bool {
        let e = self.entries@;
        match self.order {
            Order::Best => {
                let m = queue_entries(self.queue);
                let live = self.live@;
                &&& live.len() == e.len()
                &&& m.dom() == live.to_set()
                &&& forall|a: int, b: int| 0 <= a < b < live.len() ==> live[a] < live[b]
                &&& forall|k: int|
                    0 <= k < live.len() ==> {
                        &&& (#[trigger] live[k]) < self.arena@.len()
                        &&& m[live[k]] == (e[k].1 as usize, live[k])
                        &&& e[k].1 <= usize::MAX
                        &&& self.arena@[live[k] as int]@ == e[k].0
                    }
            },
            _ => {
                &&& self.deque@.len() == e.len()
                &&& forall|k: int| 0 <= k < e.len() ==> (#[trigger] self.deque@[k])@ == e[k].0
            },
        }
    }

    /// An empty frontier.
    pub fn new(order: Order) -> (r: Self)
        ensures
            r.wf(),
            r.order() == order,
            r.entries() == Seq::<(Seq<usize>, nat)>::empty(),
    {
        let ghost e = Seq::<(Seq<usize>, nat)>::empty();
        let ghost live = Seq::<usize>::empty();
        let r = Frontier {
            order,
            deque: VecDeque::new(),
            queue: queue_new(),
            arena: Vec::new(),
            entries: Ghost(e),
            live: Ghost(live),
        };
        proof {
            assert(queue_entries(r.queue).dom() =~= live.to_set());
        }
        r
    }

    /// Number of placements held.
    pub fn len(&self) -> (r: usize)
        requires
            self.wf(),
        ensures
            r == self.entries().len(),
    {
        match self.order {
            Order::Best => {
                proof {
                    self.live@.unique_seq_to_set();
                }
                queue_len(&self.queue)
            },
            _ => self.deque.len(),
        }
    }

    /// Adds a placement with its score (ignored by the first-in and
    /// last-in orders).
    pub fn push(&mut self, state: &[usize], score: usize)
        requires
            old(self).wf(),
        ensures
            final(self).wf(),
            final(self).order() == old(self).order(),
            final(self).entries() == old(self).entries().push((state@, score as nat)),
    {
        let v = slice_to_vec(state);
        let ghost e = self.entries@.push((state@, score as nat));
        match self.order {
            Order::Best => {
                let id = self.arena.len();
                let ghost old_live = self.live@;
                let ghost old_m = queue_entries(self.queue);
                self.arena.push(v);
                queue_push(&mut self.queue, id, (score, id));
                self.live = Ghost(self.live@.push(id));
                self.entries = Ghost(e);
                proof {
                    assert(!old_m.contains_key(id)) by {
                        if old_m.contains_key(id) {
                            assert(old_live.to_set().contains(id));
                            let k = choose|k: int| 0 <= k < old_live.len() && old_live[k] == id;
                            assert(old_live[k] < id);
                        }
                    }
                    assert(self.live@.to_set() =~= old_live.to_set().insert(id)) by {
                        old_live.lemma_push_to_set_commute(id);
                    }
                    assert forall|k: int| 0 <= k < self.live@.len() implies {
                        &&& (#[trigger] self.live@[k]) < self.arena@.len()
                        &&& queue_entries(self.queue)[self.live@[k]] == (
                            e[k].1 as usize,
                            self.live@[k],
                        )
                        &&& e[k].1 <= usize::MAX
                        &&& self.arena@[self.live@[k] as int]@ == e[k].0
                    } by {
                        if k < old_live.len() {
                            assert(self.live@[k] == old_live[k]);
                        }
                    }
                }
            },
            _ => {
                self.deque.push_back(v);
                self.entries = Ghost(e);
            },
        }
    }

    /// Takes out the placement that the order picks.
    pub fn pop(&mut self) -> (r: Vec<usize>)
        requires
            old(self).wf(),
            old(self).entries().len() > 0,
        ensures
            final(self).wf(),
            final(self).order() == old(self).order(),
            exists|i: int|
                picked(old(self).order(), old(self).entries(), i) && r@ == old(self).entries()[i].0
                    && final(self).entries() == old(self).entries().remove(i),
    {
        let ghost e = self.entries@;
        match self.order {
            Order::Fifo => {
                let v = self.deque.pop_front().unwrap();
                self.entries = Ghost(e.remove(0));
                proof {
                    assert forall|k: int| 0 <= k < self.entries@.len() implies (
                    #[trigger] self.deque@[k])@ == self.entries@[k].0 by {
                        assert(self.entries@[k] == e[k + 1]);
                    }
                    assert(picked(Order::Fifo, e, 0));
                }
                v
            },
            Order::Lifo => {
                let v = self.deque.pop_back().unwrap();
                self.entries = Ghost(e.remove(e.len() - 1));
                proof {
                    assert(picked(Order::Lifo, e, e.len() - 1));
                }
                v
            },
            Order::Best => {
                let ghost live = self.live@;
                let ghost m = queue_entries(self.queue);
                proof {
                    assert(m.contains_key(live[0]));
                    assert(m.dom() != Set::<usize>::empty());
                }
                let popped = queue_pop_min(&mut self.queue);
                let (id, prio) = popped.unwrap();
                proof {
                    assert(live.to_set().contains(id));
                }
                let ghost i = choose|i: int| 0 <= i < live.len() && live[i] == id;
                let v = slice_to_vec(self.arena[id].as_slice());
                self.entries = Ghost(e.remove(i));
                self.live = Ghost(live.remove(i));
                proof {
                    assert forall|j: int| 0 <= j < e.len() implies e[i].1 <= #[trigger] e[j].1 by {
                        assert(m.contains_key(live[j]));
                    }
                    assert forall|j: int| 0 <= j < i implies e[i].1 < #[trigger] e[j].1 by {
                        assert(m.contains_key(live[j]));
                        assert(live[j] < live[i]);
                    }
                    assert(picked(Order::Best, e, i));
                    assert forall|a: int, b: int|
                        0 <= a < b < self.live@.len() implies self.live@[a] < self.live@[b] by {
                        if a >= i {
                            assert(self.live@[a] == live[a + 1]);
                        }
                        if b >= i {
                            assert(self.live@[b] == live[b + 1]);
                        }
                    }
                    assert(queue_entries(self.queue).dom() =~= self.live@.to_set()) by {
                        assert forall|x: usize| #[trigger]
                            queue_entries(self.queue).dom().contains(x) implies self.live@.to_set().contains(x) by {
                            let k = choose|k: int| 0 <= k < live.len() && live[k] == x;
                            if k < i {
                                assert(self.live@[k] == x);
                            } else {
                                assert(self.live@[k - 1] == x);
                            }
                        }
                        assert forall|x: usize| #[trigger]
                            self.live@.to_set().contains(x) implies queue_entries(self.queue).dom().contains(x) by {
                            let k = choose|k: int| 0 <= k < self.live@.len() && self.live@[k] == x;
                            if k < i {
                                assert(live[k] == x);
                                assert(live[k] < live[i]);
                            } else {
                                assert(live[k + 1] == x);
                                assert(live[i] < live[k + 1]);
                            }
                        }
                    }
                    assert forall|k: int| 0 <= k < self.live@.len() implies {
                        &&& (#[trigger] self.live@[k]) < self.arena@.len()
                        &&& queue_entries(self.queue)[self.live@[k]] == (
                            self.entries@[k].1 as usize,
                            self.live@[k],
                        )
                        &&& self.entries@[k].1 <= usize::MAX
                        &&& self.arena@[self.live@[k] as int]@ == self.entries@[k].0
                    } by {
                        if k < i {
                            assert(self.live@[k] == live[k]);
                            assert(live[k] < live[i]);
                        } else {
                            assert(self.live@[k] == live[k + 1]);
                            assert(live[i] < live[k + 1]);
                        }
                    }
                }
                v
            },
        }
    }
}

} // verus!
