//! The queue: a chain of segments addressed through an arena.
//!
//! Segment references are indices into `segs`; a `None` arena slot stands
//! for a segment that was retired after the head moved past it and has since
//! been destroyed. Head and tail move only through compare-and-swap, and the
//! queue's abstract state is the concatenation of the live segments' visible,
//! unconsumed elements, head first.

use crate::segment::BUFFER_SIZE;
use crate::segment::Node;
use vstd::prelude::*;

verus! {

/// The visible, unconsumed elements of one arena slot: empty once the
/// segment has been destroyed.
pub open spec fn opt_view<T>(seg: Option<Node<T>>) -> Seq<T> {
    match seg {
        Some(n) => n@,
        None => Seq::empty(),
    }
}

/// The elements of the segment chain `segs[i ..= tail]`, oldest first.
pub open spec fn chain_view<T>(segs: Seq<Option<Node<T>>>, i: int, tail: int) -> Seq<T>
    decreases tail + 1 - i,
{
    if i > tail || tail < 0 {
        Seq::empty()
    } else {
        opt_view(segs[i]) + chain_view(segs, i + 1, tail)
    }
}

/// The chain's elements end with the last segment's elements.
proof fn lemma_chain_view_snoc<T>(segs: Seq<Option<Node<T>>>, i: int, tail: int)
    requires
        0 <= i <= tail,
    ensures
        chain_view(segs, i, tail) == chain_view(segs, i, tail - 1) + opt_view(segs[tail]),
    decreases tail - i,
{
    if i == tail {
        assert(chain_view(segs, i, tail - 1) == Seq::<T>::empty());
        assert(chain_view(segs, i + 1, tail) == Seq::<T>::empty());
        assert(chain_view(segs, i, tail) =~= chain_view(segs, i, tail - 1) + opt_view(segs[tail]));
    } else {
        lemma_chain_view_snoc(segs, i + 1, tail);
        assert(chain_view(segs, i, tail) =~= chain_view(segs, i, tail - 1) + opt_view(segs[tail]));
    }
}

/// Arenas whose segments hold the same elements over `[i, tail]` have the
/// same chain elements there, whatever stands outside the range.
proof fn lemma_chain_view_congruent<T>(
    s1: Seq<Option<Node<T>>>,
    s2: Seq<Option<Node<T>>>,
    i: int,
    tail: int,
)
    requires
        forall|j: int| i <= j <= tail ==> opt_view(#[trigger] s1[j]) == opt_view(s2[j]),
    ensures
        chain_view(s1, i, tail) == chain_view(s2, i, tail),
    decreases tail + 1 - i,
{
    if i > tail || tail < 0 {
    } else {
        lemma_chain_view_congruent(s1, s2, i + 1, tail);
        assert(opt_view(s1[i]) == opt_view(s2[i]));
        assert(chain_view(s1, i, tail) =~= chain_view(s2, i, tail));
    }
}

/// A FIFO queue built from linked fixed-capacity segments.
pub struct Queue<T> {
    /// Segment arena; `None` marks a destroyed segment.
    pub segs: Vec<Option<Node<T>>>,
    /// Arena index of the first live segment.
    pub head: usize,
    /// Arena index of the last segment, where producers claim slots.
    pub tail: usize,
}

impl<T> Queue<T> {
    /// The segment at arena index `i`.
    pub open spec fn node_at(&self, i: int) -> Node<T> {
        self.segs@[i]->0
    }

    /// Queue invariant:
    /// - head never passes tail, and tail is the last segment ever created;
    /// - every segment between head and tail is live and well formed;
    /// - every segment the head has moved past has been destroyed;
    /// - every live segment but the tail is full, linked to its successor,
    ///   and not yet entered by consumers;
    /// - the tail segment is the end of the chain.
    pub open spec fn wf(&self) -> bool {
        &&& self.head <= self.tail
        &&& self.tail == self.segs.len() - 1
        &&& forall|i: int| self.head <= i <= self.tail ==> (#[trigger] self.segs@[i]) is Some
        &&& forall|i: int| self.head <= i <= self.tail ==> (#[trigger] self.node_at(i)).wf()
        &&& forall|i: int| 0 <= i < self.head ==> (#[trigger] self.segs@[i]) is None
        &&& forall|i: int| self.head <= i < self.tail ==> (#[trigger] self.node_at(i)).full()
        &&& forall|i: int|
            self.head <= i < self.tail ==> (#[trigger] self.node_at(i)).next == Some(
                (i + 1) as usize,
            )
        &&& self.node_at(self.tail as int).next is None
        &&& forall|i: int| self.head < i <= self.tail ==> (#[trigger] self.node_at(i)).deqidx == 0
    }

    /// Creates an empty queue holding a single sentinel segment, with head
    /// and tail referring to it.
    pub fn new() -> (q: Queue<T>)
        ensures
            q.wf(),
            q@ == Seq::<T>::empty(),
            q.head == q.tail,
    {
        let sentinel: Node<T> = Node::new(None, 0);
        let mut segs: Vec<Option<Node<T>>> = Vec::new();
        segs.push(Some(sentinel));
        let q = Queue { segs, head: 0, tail: 0 };
        proof {
            assert(chain_view(q.segs@, 1, 0) == Seq::<T>::empty());
            assert(q@ =~= Seq::<T>::empty());
        }
        q
    }

    /// Compare-and-swap on the head reference: head moves to `next` only if
    /// it still refers to `current`, so a lagging reader's stale view is
    /// always safe to retry against.
    pub fn cas_head(&mut self, current: usize, next: usize) -> (ok: bool)
        ensures
            ok == (old(self).head == current),
            final(self).head == if ok {
                next
            } else {
                old(self).head
            },
            final(self).tail == old(self).tail,
            final(self).segs == old(self).segs,
    {
        if self.head == current {
            self.head = next;
            true
        } else {
            false
        }
    }

    /// Compare-and-swap on the tail reference. The outcome is not reported:
    /// a failed swap only means the tail has already been helped forward.
    pub fn cas_tail(&mut self, current: usize, next: usize)
        ensures
            final(self).tail == if old(self).tail == current {
                next
            } else {
                old(self).tail
            },
            final(self).head == old(self).head,
            final(self).segs == old(self).segs,
    {
        if self.tail == current {
            self.tail = next;
        }
    }

    /// Destroys the segment at arena index `i`, releasing its storage and
    /// dropping whatever elements were never consumed. This models deferred
    /// segment destruction: it runs only once the head reference has moved
    /// past the segment, so no consumer can reach it any more.
    fn destroy(&mut self, i: usize)
        requires
            i < old(self).segs.len(),
        ensures
            final(self).segs@ == old(self).segs@.update(i as int, None),
            final(self).head == old(self).head,
            final(self).tail == old(self).tail,
    {
        self.segs[i] = None;
    }

    /// Inserts `value` at the logical tail.
    ///
    /// A slot index is claimed in the tail segment; the slot is written and
    /// then published by advancing the commit cursor one step past its
    /// predecessor's. On overflow the producer links a fresh segment with
    /// `value` already written into its first slot — so publishing the
    /// segment publishes the element, with no second claim step — and helps
    /// the tail reference forward.
    pub fn push(&mut self, value: T)
        requires
            old(self).wf(),
        ensures
            final(self).wf(),
            final(self)@ == old(self)@.push(value),
            final(self).head == old(self).head,
    {
        let ghost pre = *self;
        let ltail = self.tail;
        let (idx, lnext) = {
            let node = match &self.segs[ltail] {
                Some(n) => n,
                None => vstd::pervasive::unreached(),
            };
            (node.enq_allocated, node.next)
        };

        if idx > BUFFER_SIZE - 1 {
            // The tail segment has no free slot. Its next link is still null
            // (the tail is the end of the chain), so link a fresh segment
            // pre-seeded with `value` and help the tail reference forward.
            proof {
                assert(lnext is None);
            }
            let new_node: Node<T> = Node::new(Some(value), 1);
            let new_idx = self.segs.len();
            self.segs.push(Some(new_node));
            let linked = {
                let node = match &mut self.segs[ltail] {
                    Some(n) => n,
                    None => vstd::pervasive::unreached(),
                };
                node.cas_next(None, Some(new_idx))
            };
            proof {
                assert(linked);
            }
            self.cas_tail(ltail, new_idx);
            proof {
                let h = pre.head as int;
                let t = ltail as int;
                assert(pre.node_at(t).full());
                assert forall|i: int| self.head <= i <= self.tail implies (#[trigger] self.node_at(
                    i,
                )).wf() by {
                    if i < t {
                        assert(self.node_at(i) == pre.node_at(i));
                    } else if i == t {
                        assert(self.node_at(t).items == pre.node_at(t).items);
                    }
                }
                assert forall|i: int| self.head <= i < self.tail implies (#[trigger] self.node_at(
                    i,
                )).full() by {
                    if i < t {
                        assert(self.node_at(i) == pre.node_at(i));
                    }
                }
                assert forall|i: int| self.head <= i < self.tail implies (#[trigger] self.node_at(
                    i,
                )).next == Some((i + 1) as usize) by {
                    if i < t {
                        assert(self.node_at(i) == pre.node_at(i));
                    }
                }
                assert forall|i: int| self.head < i <= self.tail implies (#[trigger] self.node_at(
                    i,
                )).deqidx == 0 by {
                    if i < t {
                        assert(self.node_at(i) == pre.node_at(i));
                    } else if i == t {
                        assert(self.node_at(t).deqidx == pre.node_at(t).deqidx);
                    }
                }
                assert(self.wf());
                assert(self.node_at(t)@ =~= pre.node_at(t)@);
                assert(forall|j: int|
                    h <= j <= t ==> opt_view(#[trigger] pre.segs@[j]) == opt_view(self.segs@[j]));
                lemma_chain_view_congruent(pre.segs@, self.segs@, h, t);
                lemma_chain_view_snoc(self.segs@, h, t + 1);
                assert(opt_view(self.segs@[t + 1]) == seq![value]);
                assert(self@ =~= pre@.push(value));
            }
        } else {
            // Claim slot `idx`: the increment grants the exclusive right to
            // write exactly this slot.
            let node = match &mut self.segs[ltail] {
                Some(n) => n,
                None => vstd::pervasive::unreached(),
            };
            node.enq_allocated = idx + 1;
            let entry = &mut node.items[idx];
            entry.write(value);
            // Advance the commit cursor from `idx - 1` to `idx`. The
            // predecessor slot's commit step has already happened, so the
            // swap succeeds at once; in the concurrent protocol this is the
            // one bounded wait, on the immediate predecessor only.
            let committed = node.cas_committed(idx as isize - 1, idx as isize);
            proof {
                assert(committed);
                let h = pre.head as int;
                let t = ltail as int;
                let n1 = pre.node_at(t);
                let n2 = self.node_at(t);
                assert(n2.wf()) by {
                    assert forall|j: int|
                        n2.deqidx <= j < n2.committed_count() implies (#[trigger] n2.items@[j]).is_filled() by {
                        if j != idx {
                            assert(n1.items@[j].is_filled());
                        }
                    }
                    assert forall|j: int| 0 <= j < n2.deqidx implies !(#[trigger] n2.items@[j]).is_filled() by {
                        assert(!n1.items@[j].is_filled());
                    }
                    assert forall|j: int|
                        n2.committed_count() <= j < BUFFER_SIZE implies !(#[trigger] n2.items@[j]).is_filled() by {
                        assert(!n1.items@[j].is_filled());
                    }
                }
                assert forall|i: int| self.head <= i <= self.tail implies (#[trigger] self.node_at(
                    i,
                )).wf() by {
                    if i != t {
                        assert(self.node_at(i) == pre.node_at(i));
                    }
                }
                assert forall|i: int| self.head <= i < self.tail implies (#[trigger] self.node_at(
                    i,
                )).full() by {
                    if i != t {
                        assert(self.node_at(i) == pre.node_at(i));
                    }
                }
                assert forall|i: int| self.head <= i < self.tail implies (#[trigger] self.node_at(
                    i,
                )).next == Some((i + 1) as usize) by {
                    if i != t {
                        assert(self.node_at(i) == pre.node_at(i));
                    }
                }
                assert forall|i: int| self.head < i <= self.tail implies (#[trigger] self.node_at(
                    i,
                )).deqidx == 0 by {
                    if i != t {
                        assert(self.node_at(i) == pre.node_at(i));
                    } else {
                        assert(n2.deqidx == n1.deqidx);
                    }
                }
                assert(self.wf());
                assert(n2@ =~= n1@.push(value)) by {
                    assert(forall|k: int|
                        0 <= k < n1@.len() ==> n1.items@[n1.deqidx + k]
                            == n2.items@[#[trigger] (n2.deqidx + k)]);
                }
                assert(forall|j: int|
                    h <= j <= t - 1 ==> opt_view(#[trigger] pre.segs@[j])
                        == opt_view(self.segs@[j]));
                lemma_chain_view_congruent(pre.segs@, self.segs@, h, t - 1);
                lemma_chain_view_snoc(pre.segs@, h, t);
                lemma_chain_view_snoc(self.segs@, h, t);
                assert(self@ =~= pre@.push(value));
            }
        }
    }

    /// Attempts to dequeue the current logical head element, and only that
    /// element, if `f` accepts it.
    ///
    /// This is not a scan: when the head element fails `f` the call returns
    /// `None` at once, even if a later element would match. An exhausted head
    /// segment is helped past — its head reference swapped to the successor
    /// and the abandoned segment destroyed — before the head element is
    /// inspected. The element is claimed by swapping the consume cursor one
    /// step forward and is moved out of its slot, so each pushed element is
    /// returned at most once.
    #[verifier::loop_isolation(false)]
    pub fn pop_if<F: Fn(&T) -> bool>(&mut self, f: F) -> (r: Option<T>)
        requires
            old(self).wf(),
            forall|x: &T| #[trigger] f.requires((x,)),
        ensures
            final(self).wf(),
            match r {
                Some(v) => {
                    &&& old(self)@.len() > 0
                    &&& v == old(self)@[0]
                    &&& final(self)@ == old(self)@.drop_first()
                    &&& f.ensures((&old(self)@[0],), true)
                },
                None => {
                    &&& final(self)@ == old(self)@
                    &&& old(self)@.len() == 0 || f.ensures((&old(self)@[0],), false)
                },
            },
    {
        let ghost pre = *self;
        loop
            invariant
                self.wf(),
                self@ == pre@,
                self.tail == pre.tail,
            decreases self.tail - self.head,
        {
            let lhead = self.head;
            let (idx, committed, lnext) = {
                let node = match &self.segs[lhead] {
                    Some(n) => n,
                    None => vstd::pervasive::unreached(),
                };
                (node.deqidx, node.enq_committed, node.next)
            };

            if idx > BUFFER_SIZE - 1 {
                // The head segment is exhausted.
                match lnext {
                    None => {
                        // End of the chain: the queue is empty.
                        proof {
                            assert(self.head == self.tail);
                            assert(opt_view(self.segs@[lhead as int]) =~= Seq::<T>::empty());
                            assert(chain_view(self.segs@, lhead as int + 1, self.tail as int)
                                == Seq::<T>::empty());
                            assert(pre@.len() == 0);
                        }
                        return None;
                    },
                    Some(nx) => {
                        // Help the head reference past the exhausted segment,
                        // then destroy it. In the concurrent protocol the
                        // destruction is deferred until no reader can still
                        // observe the segment; the sequential model reaches
                        // that point at once.
                        let ghost mid = *self;
                        let ok = self.cas_head(lhead, nx);
                        proof {
                            assert(ok);
                        }
                        if ok {
                            self.destroy(lhead);
                        }
                        proof {
                            let h = lhead as int;
                            let t = self.tail as int;
                            assert(self.head == h + 1);
                            assert forall|i: int|
                                self.head <= i <= self.tail implies (#[trigger] self.node_at(
                                i,
                            )).wf() by {
                                assert(self.node_at(i) == mid.node_at(i));
                            }
                            assert forall|i: int|
                                self.head <= i < self.tail implies (#[trigger] self.node_at(
                                i,
                            )).full() && self.node_at(i).next == Some((i + 1) as usize) by {
                                assert(self.node_at(i) == mid.node_at(i));
                            }
                            assert forall|i: int|
                                self.head < i <= self.tail implies (#[trigger] self.node_at(
                                i,
                            )).deqidx == 0 by {
                                assert(self.node_at(i) == mid.node_at(i));
                            }
                            assert(self.node_at(t) == mid.node_at(t));
                            assert(self.wf());
                            // The abandoned segment held no unconsumed
                            // elements, so the queue's elements are unchanged.
                            assert forall|j: int|
                                h + 1 <= j <= t implies opt_view(#[trigger] mid.segs@[j])
                                == opt_view(self.segs@[j]) by {}
                            lemma_chain_view_congruent(mid.segs@, self.segs@, h + 1, t);
                            assert(opt_view(mid.segs@[h]) =~= Seq::<T>::empty());
                            assert(self@ == pre@);
                        }
                    },
                }
            } else {
                if (idx as isize) > committed {
                    // No committed element at this position: the queue is
                    // empty from this consumer's point-in-time view.
                    proof {
                        assert(idx == self.node_at(lhead as int).committed_count());
                        assert(opt_view(self.segs@[lhead as int]) =~= Seq::<T>::empty());
                        assert(!self.node_at(lhead as int).full());
                        assert(self.head == self.tail);
                        assert(chain_view(self.segs@, lhead as int + 1, self.tail as int)
                            == Seq::<T>::empty());
                        assert(pre@.len() == 0);
                    }
                    return None;
                }
                // Inspect the oldest unconsumed element, and nothing past it.
                proof {
                    assert(self.node_at(lhead as int).items@[idx as int].is_filled());
                    assert(self@ == opt_view(self.segs@[lhead as int]) + chain_view(
                        self.segs@,
                        lhead as int + 1,
                        self.tail as int,
                    ));
                    assert(self@[0] == self.node_at(lhead as int)@[0]);
                }
                let matched = {
                    let node = match &self.segs[lhead] {
                        Some(n) => n,
                        None => vstd::pervasive::unreached(),
                    };
                    let item = node.items[idx].shared();
                    f(item)
                };
                if !matched {
                    return None;
                }
                // Claim the slot: swap the consume cursor from `idx` to
                // `idx + 1`; the winning consumer moves the element out.
                let ghost mid = *self;
                let node = match &mut self.segs[lhead] {
                    Some(n) => n,
                    None => vstd::pervasive::unreached(),
                };
                let ok = node.cas_deqidx(idx, idx + 1);
                proof {
                    assert(ok);
                }
                if ok {
                    let entry = &mut node.items[idx];
                    let v = entry.take();
                    proof {
                        let h = lhead as int;
                        let t = self.tail as int;
                        let n1 = mid.node_at(h);
                        let n2 = self.node_at(h);
                        assert(n2.wf()) by {
                            assert forall|j: int|
                                n2.deqidx <= j < n2.committed_count() implies (
                            #[trigger] n2.items@[j]).is_filled() by {
                                assert(n1.items@[j].is_filled());
                            }
                            assert forall|j: int| 0 <= j < n2.deqidx implies !(
                            #[trigger] n2.items@[j]).is_filled() by {
                                if j != idx {
                                    assert(!n1.items@[j].is_filled());
                                }
                            }
                            assert forall|j: int|
                                n2.committed_count() <= j < BUFFER_SIZE implies !(
                            #[trigger] n2.items@[j]).is_filled() by {
                                assert(!n1.items@[j].is_filled());
                            }
                        }
                        assert forall|i: int|
                            self.head <= i <= self.tail implies (#[trigger] self.node_at(
                            i,
                        )).wf() by {
                            if i != h {
                                assert(self.node_at(i) == mid.node_at(i));
                            }
                        }
                        assert forall|i: int|
                            self.head <= i < self.tail implies (#[trigger] self.node_at(
                            i,
                        )).full() && self.node_at(i).next == Some((i + 1) as usize) by {
                            if i != h {
                                assert(self.node_at(i) == mid.node_at(i));
                            } else {
                                assert(n2.enq_allocated == n1.enq_allocated);
                                assert(n2.next == n1.next);
                            }
                        }
                        assert forall|i: int|
                            self.head < i <= self.tail implies (#[trigger] self.node_at(
                            i,
                        )).deqidx == 0 by {
                            assert(self.node_at(i) == mid.node_at(i));
                        }
                        assert(self.node_at(t).next == mid.node_at(t).next);
                        assert(self.wf());
                        // The segment's elements lose exactly their first.
                        assert(n2@ =~= n1@.drop_first()) by {
                            assert(forall|k: int|
                                0 <= k < n2@.len() ==> n1.items@[n1.deqidx + (k + 1)]
                                    == n2.items@[#[trigger] (n2.deqidx + k)]);
                        }
                        assert forall|j: int|
                            h + 1 <= j <= t implies opt_view(#[trigger] mid.segs@[j]) == opt_view(
                            self.segs@[j],
                        ) by {}
                        lemma_chain_view_congruent(mid.segs@, self.segs@, h + 1, t);
                        assert(self@ =~= pre@.drop_first());
                        assert(v == pre@[0]);
                    }
                    return Some(v);
                } else {
                    return vstd::pervasive::unreached();
                }
            }
        }
    }

    /// Number of live segments: those from head to tail that have not been
    /// destroyed.
    pub fn live_segments(&self) -> (n: usize)
        requires
            self.wf(),
        ensures
            n == self.tail - self.head + 1,
    {
        self.tail - self.head + 1
    }
}

/// Exactly-once law, producer side: pushing adds exactly one occurrence of
/// the pushed element to the queue's elements, and disturbs no other.
pub proof fn lemma_push_adds_exactly_one<T>(s: Seq<T>, v: T)
    ensures
        s.push(v).to_multiset() == s.to_multiset().insert(v),
{
    broadcast use vstd::seq_lib::group_to_multiset_ensures;

}

/// Exactly-once law, consumer side: a successful dequeue removes exactly one
/// occurrence of the head element from the queue's elements, and disturbs no
/// other. Across any run, each pushed element is therefore handed out at most
/// once, and an always-accepting consumer skips none.
pub proof fn lemma_pop_removes_exactly_one<T>(s: Seq<T>)
    requires
        s.len() > 0,
    ensures
        s.drop_first().to_multiset().insert(s[0]) == s.to_multiset(),
{
    broadcast use vstd::seq_lib::group_to_multiset_ensures;

    assert(s.remove(0) =~= s.drop_first());
    assert(s.remove(0).to_multiset() =~= s.to_multiset().remove(s[0]));
    assert(s.contains(s[0]));
    assert(s.to_multiset().count(s[0]) > 0);
    assert(s.to_multiset().remove(s[0]).insert(s[0]) =~= s.to_multiset());
}

/// Destruction law: every segment the head reference has moved past has been
/// destroyed — the queue keeps no storage behind its head.
pub proof fn lemma_passed_segments_destroyed<T>(q: Queue<T>, i: int)
    requires
        q.wf(),
        0 <= i < q.head,
    ensures
        q.segs@[i] is None,
{
}

impl<T> View for Queue<T> {
    type V = Seq<T>;

    /// The queue's elements in FIFO order: the live segments' visible,
    /// unconsumed elements, head segment first.
    open spec fn view(&self) -> Seq<T> {
        chain_view(self.segs@, self.head as int, self.tail as int)
    }
}

} // verus!
