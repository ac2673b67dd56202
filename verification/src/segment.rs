//! Segments and their write-once entries.
//!
//! A segment (`Node`) is a fixed array of `BUFFER_SIZE` entries plus three
//! cursors. `enq_allocated` hands out slot indices to producers,
//! `enq_committed` marks the contiguous prefix of slots whose writes are
//! complete and visible to consumers, and `deqidx` marks the next slot
//! eligible for removal. A slot is written at most once; taking a slot moves
//! the element out, so the entry's storage never holds a value twice.

use vstd::prelude::*;

verus! {

/// Number of entries in one segment.
pub const BUFFER_SIZE: usize = 256;

/// A single write-once storage cell for one element.
pub struct Entry<T> {
    pub data: Option<T>,
}

impl<T> Entry<T> {
    /// Whether the cell currently holds an element.
    pub open spec fn is_filled(&self) -> bool {
        self.data is Some
    }

    /// The element held by a filled cell.
    pub open spec fn value(&self) -> T {
        self.data->0
    }

    /// A fresh, empty cell.
    pub fn new() -> (e: Entry<T>)
        ensures
            !e.is_filled(),
    {
        Entry { data: None }
    }

    /// Stores an element. The cell is write-once: writing requires that no
    /// element was stored before.
    pub fn write(&mut self, item: T)
        requires
            !old(self).is_filled(),
        ensures
            final(self).is_filled(),
            final(self).value() == item,
    {
        self.data = Some(item);
    }

    /// A borrow of the stored element, for inspection before consumption.
    pub fn shared(&self) -> (r: &T)
        requires
            self.is_filled(),
        ensures
            *r == self.value(),
    {
        match &self.data {
            Some(v) => v,
            None => vstd::pervasive::unreached(),
        }
    }

    /// Moves the stored element out, leaving the cell empty. The consumed
    /// slot's element is destroyed (dropped) by the caller, never by the
    /// segment's own teardown.
    pub fn take(&mut self) -> (r: T)
        requires
            old(self).is_filled(),
        ensures
            r == old(self).value(),
            !final(self).is_filled(),
    {
        let data = self.data.take();
        match data {
            Some(v) => v,
            None => vstd::pervasive::unreached(),
        }
    }
}

/// One fixed-capacity segment of the queue.
///
/// `next` links to the following segment (as an index into the queue's
/// segment arena) once this segment has overflowed.
pub struct Node<T> {
    /// Allocate cursor: grants producers exclusive claims to slot indices.
    pub enq_allocated: usize,
    /// Commit cursor: slot `i` is visible to consumers iff `enq_committed >= i`.
    /// Starts one below the first unclaimed index, so `-1` for an empty segment.
    pub enq_committed: isize,
    /// Consume cursor: next slot eligible for removal.
    pub deqidx: usize,
    /// Link to the successor segment, set exactly once on overflow.
    pub next: Option<usize>,
    /// The slots.
    pub items: Vec<Entry<T>>,
}

impl<T> Node<T> {
    /// Number of slots visible to consumers: the committed prefix's length.
    pub open spec fn committed_count(&self) -> int {
        self.enq_committed + 1
    }

    /// Whether slot `i` is visible to consumers.
    pub open spec fn is_visible(&self, i: int) -> bool {
        0 <= i <= self.enq_committed
    }

    /// Whether every slot of the segment has been claimed.
    pub open spec fn full(&self) -> bool {
        self.enq_allocated == BUFFER_SIZE
    }

    /// Segment invariant, as observed between operations:
    /// - the committed prefix is exactly the claimed prefix (a claim is
    ///   followed by its commit step before the claiming producer returns);
    /// - the consume cursor never passes the commit cursor;
    /// - slots in `[deqidx, committed)` hold an element, all others are empty
    ///   (either never written, or moved out by a consumer).
    pub open spec fn wf(&self) -> bool {
        &&& self.items.len() == BUFFER_SIZE
        &&& self.enq_allocated <= BUFFER_SIZE
        &&& self.enq_committed == self.enq_allocated as int - 1
        &&& self.deqidx <= self.committed_count()
        &&& forall|j: int|
            self.deqidx <= j < self.committed_count() ==> (#[trigger] self.items@[j]).is_filled()
        &&& forall|j: int| 0 <= j < self.deqidx ==> !(#[trigger] self.items@[j]).is_filled()
        &&& forall|j: int|
            self.committed_count() <= j < BUFFER_SIZE ==> !(#[trigger] self.items@[j]).is_filled()
    }

    /// Creates a segment, optionally pre-seeded with one element already
    /// written into its first slot. Pre-seeding lets the producer that links
    /// a fresh segment on overflow publish its element without claiming a
    /// slot in the segment after publication: `enqidx` reflects the claims
    /// already spent, so it is `1` when pre-seeded and `0` for a sentinel.
    pub fn new(maybe_item: Option<T>, enqidx: usize) -> (n: Node<T>)
        requires
            enqidx <= 1,
            maybe_item is Some <==> enqidx == 1,
        ensures
            n.wf(),
            n.next is None,
            n.deqidx == 0,
            n.enq_allocated == enqidx,
            n@ == if maybe_item is Some {
                seq![maybe_item->0]
            } else {
                Seq::<T>::empty()
            },
    {
        let mut first_entry = Entry::new();
        match maybe_item {
            Some(item) => first_entry.write(item),
            None => (),
        }

        let mut items: Vec<Entry<T>> = Vec::new();
        items.push(first_entry);
        while items.len() < BUFFER_SIZE
            invariant
                1 <= items.len() <= BUFFER_SIZE,
                items@[0].is_filled() <==> maybe_item is Some,
                maybe_item is Some ==> items@[0].value() == maybe_item->0,
                forall|j: int| 1 <= j < items.len() ==> !(#[trigger] items@[j]).is_filled(),
            decreases BUFFER_SIZE - items.len(),
        {
            items.push(Entry::new());
        }

        let n = Node {
            enq_allocated: enqidx,
            enq_committed: enqidx as isize - 1,
            deqidx: 0,
            next: None,
            items,
        };
        proof {
            assert(n@ =~= if maybe_item is Some {
                seq![maybe_item->0]
            } else {
                Seq::<T>::empty()
            });
        }
        n
    }

    /// Compare-and-swap on the `next` link: the link is set only if it still
    /// holds `current`, so a segment is linked into the chain exactly once.
    pub fn cas_next(&mut self, current: Option<usize>, next: Option<usize>) -> (ok: bool)
        ensures
            ok == (old(self).next == current),
            final(self).next == if ok {
                next
            } else {
                old(self).next
            },
            final(self).enq_allocated == old(self).enq_allocated,
            final(self).enq_committed == old(self).enq_committed,
            final(self).deqidx == old(self).deqidx,
            final(self).items == old(self).items,
    {
        let matches_current = match (self.next, current) {
            (None, None) => true,
            (Some(a), Some(b)) => a == b,
            _ => false,
        };
        if matches_current {
            self.next = next;
            true
        } else {
            false
        }
    }

    /// Compare-and-swap on the commit cursor. A producer that claimed slot
    /// `i` advances the cursor from `i - 1` to `i`; the swap succeeds only
    /// once the predecessor slot's commit step has happened, which keeps the
    /// committed prefix contiguous.
    pub fn cas_committed(&mut self, current: isize, next: isize) -> (ok: bool)
        ensures
            ok == (old(self).enq_committed == current),
            final(self).enq_committed == if ok {
                next
            } else {
                old(self).enq_committed
            },
            final(self).enq_allocated == old(self).enq_allocated,
            final(self).deqidx == old(self).deqidx,
            final(self).next == old(self).next,
            final(self).items == old(self).items,
    {
        if self.enq_committed == current {
            self.enq_committed = next;
            true
        } else {
            false
        }
    }

    /// Compare-and-swap on the consume cursor: a consumer takes slot `i` only
    /// by swapping the cursor from `i` to `i + 1`, so each slot is consumed
    /// at most once.
    pub fn cas_deqidx(&mut self, current: usize, next: usize) -> (ok: bool)
        ensures
            ok == (old(self).deqidx == current),
            final(self).deqidx == if ok {
                next
            } else {
                old(self).deqidx
            },
            final(self).enq_allocated == old(self).enq_allocated,
            final(self).enq_committed == old(self).enq_committed,
            final(self).next == old(self).next,
            final(self).items == old(self).items,
    {
        if self.deqidx == current {
            self.deqidx = next;
            true
        } else {
            false
        }
    }
}

impl<T> View for Node<T> {
    type V = Seq<T>;

    /// The segment's visible, unconsumed elements, oldest first: the slots in
    /// `[deqidx, committed)`.
    open spec fn view(&self) -> Seq<T> {
        Seq::new(
            (self.committed_count() - self.deqidx) as nat,
            |k: int| self.items@[self.deqidx + k].value(),
        )
    }
}

/// Commit-order law: visibility is a contiguous prefix. Whenever a slot `i2`
/// is visible to consumers, every slot claimed before it on the same segment
/// is visible as well — an element never becomes visible before its
/// predecessors.
pub proof fn lemma_visible_prefix<T>(n: Node<T>, i1: int, i2: int)
    requires
        0 <= i1 <= i2,
        n.is_visible(i2),
    ensures
        n.is_visible(i1),
{
}

} // verus!
