//! An unbounded FIFO queue chaining bounded ring segments (LPRQ-style).
//!
//! Segments ([`PRQ`]) live in a preallocated arena and are linked through
//! their `next` addresses. Enqueues go to the tail segment; when it closes,
//! a fresh segment already holding the value is linked behind it and the
//! tail swings forward — so a linked segment is never observably empty.
//! Dequeues come from the head segment; a drained segment whose successor
//! exists is unlinked and handed to the [`ReclamationPort`], and is never
//! touched again.
use crate::prq::PRQ;
use crate::prq::TICKET_LIMIT;
use crate::reclamation::ReclamationPort;
use vstd::prelude::*;

verus! {

/// The segmented queue: `head` addresses the segment values leave from,
/// `tail` the segment values enter, along a chain of segments.
pub struct LPRQ<T, const N: usize> {
    segs: Vec<PRQ<T, N>>,
    head: usize,
    tail: usize,
    port: ReclamationPort,
    chain: Ghost<Seq<usize>>,
    bound: u64,
}

impl<T, const N: usize> View for LPRQ<T, N> {
    type V = Seq<T>;

    /// The queued values, front first: the segment contents concatenated
    /// along the chain — the segment boundaries are invisible.
    closed spec fn view(&self) -> Seq<T> {
        self.seg_views().flatten()
    }
}

impl<T, const N: usize> LPRQ<T, N> {
    /// The contents of each live segment, in chain order.
    spec fn seg_views(self) -> Seq<Seq<T>> {
        Seq::new(self.chain@.len(), |k: int| self.segs@[self.chain@[k] as int]@)
    }

    /// The live chain: distinct real addresses, `head` first, `tail` last,
    /// linked in order with no successor after the tail.
    spec fn chain_ok(self) -> bool {
        let c = self.chain@;
        &&& c.len() >= 1
        &&& forall|k: int| 0 <= k < c.len() ==> 1 <= #[trigger] c[k] < self.segs.len()
        &&& forall|k1: int, k2: int| 0 <= k1 < k2 < c.len() ==> c[k1] != c[k2]
        &&& self.head == c[0]
        &&& self.tail == c[c.len() - 1]
        &&& forall|k: int|
            0 <= k < c.len() - 1 ==> (#[trigger] self.segs@[c[k] as int]).next_addr() == c[k + 1]
        &&& self.segs@[c[c.len() - 1] as int].next_addr() == 0
    }

    /// Every live segment is well formed with its tickets under the ghost
    /// bound; all but the tail segment are closed, the tail segment is not.
    spec fn segs_ok(self) -> bool {
        let c = self.chain@;
        &&& forall|k: int| 0 <= k < c.len() ==> (#[trigger] self.segs@[c[k] as int]).wf()
        &&& forall|k: int|
            0 <= k < c.len() ==> (#[trigger] self.segs@[c[k] as int]).spec_tail() <= self.bound
        &&& forall|k: int| 0 <= k < c.len() - 1 ==> (#[trigger] self.segs@[c[k] as int]).spec_closed()
        &&& !self.segs@[c[c.len() - 1] as int].spec_closed()
    }

    /// Retired addresses are real, distinct, and never overlap the live
    /// chain: a retired segment cannot be reached again.
    spec fn retired_ok(self) -> bool {
        let r = self.port@;
        &&& forall|i: int| 0 <= i < r.len() ==> 1 <= #[trigger] r[i] < self.segs.len()
        &&& forall|i: int| 0 <= i < r.len() ==> !self.chain@.contains(#[trigger] r[i])
        &&& forall|i1: int, i2: int| 0 <= i1 < i2 < r.len() ==> r[i1] != r[i2]
    }

    /// Every segment ever allocated is still chained or was retired —
    /// nothing leaks and nothing is freed twice.
    spec fn conserved(self) -> bool {
        forall|a: usize|
            1 <= a < self.segs.len() ==> (#[trigger] self.chain@.contains(a)
                || self.port@.contains(a))
    }

    /// Well-formedness: the whole structural invariant of the queue.
    pub closed spec fn wf(self) -> bool {
        &&& 1 <= N as int
        &&& (N as u64) < TICKET_LIMIT
        &&& 2 <= self.segs.len()
        &&& self.chain_ok()
        &&& self.segs_ok()
        &&& self.retired_ok()
        &&& self.conserved()
        &&& N as u64 <= self.bound <= TICKET_LIMIT
    }

    /// A bound on every live segment's ticket counters; grows by exactly
    /// one per operation, so it measures how much counter room is left.
    pub closed spec fn ticket_bound(self) -> u64 {
        self.bound
    }

    /// Whether the ticket counters still have room for one more enqueue.
    pub open spec fn can_enqueue(self) -> bool {
        self.ticket_bound() < TICKET_LIMIT
    }

    /// Whether the ticket counters still have room for one more dequeue.
    pub open spec fn can_dequeue(self) -> bool {
        self.ticket_bound() < TICKET_LIMIT
    }

    /// How many segments have been handed to the reclamation port.
    pub closed spec fn retired(self) -> nat {
        self.port@.len()
    }

    /// How many segments have ever been allocated (the arena footprint).
    pub closed spec fn footprint(self) -> nat {
        self.segs.len() as nat
    }

    /// How many segments are currently chained.
    pub closed spec fn live_segments(self) -> nat {
        self.chain@.len()
    }

    /// Conservation of segments: every allocation is accounted for — the
    /// null placeholder, the chained segments, and the retired segments.
    /// Nothing leaks and nothing is retired twice.
    pub proof fn lemma_segment_conservation(self)
        requires
            self.wf(),
        ensures
            self.footprint() == 1 + self.live_segments() + self.retired(),
    {
        crate::reclamation::lemma_address_partition(
            self.chain@,
            self.port@,
            self.segs.len() as int,
        );
    }

    /// Whether the ticket counters can still take one more operation:
    /// callers outside the proof system can test the preconditions of
    /// `enqueue` and `dequeue` with this.
    pub fn has_ticket_room(&self) -> (r: bool)
        ensures
            r == self.can_enqueue(),
            r == self.can_dequeue(),
    {
        self.bound < TICKET_LIMIT
    }

    /// An empty queue: a single open segment.
    pub fn new() -> (q: Self)
        requires
            1 <= N,
            (N as u64) < TICKET_LIMIT,
        ensures
            q.wf(),
            q@ == Seq::<T>::empty(),
            q.ticket_bound() == N as u64,
    {
        let mut segs: Vec<PRQ<T, N>> = Vec::new();
        segs.push(PRQ::new());  // address 0 stands for null and is never linked
        segs.push(PRQ::new());  // address 1: the initial segment
        let ghost chain0: Seq<usize> = seq![1usize];
        let q = LPRQ {
            segs,
            head: 1,
            tail: 1,
            port: ReclamationPort::new(),
            chain: Ghost(chain0),
            bound: N as u64,
        };
        proof {
            assert(q.seg_views() =~= seq![q.segs@[1int]@]);
            q.seg_views().lemma_flatten_one_element();
            assert(q@ =~= Seq::<T>::empty());
        }
        q
    }

    /// Appends `val`: fast path into the tail segment; if that segment is
    /// closed (or closes now), a fresh segment pre-seeded with `val` is
    /// linked behind it and the tail swings to it.
    pub fn enqueue(&mut self, val: T)
        requires
            old(self).wf(),
            old(self).can_enqueue(),
        ensures
            final(self).wf(),
            final(self)@ == old(self)@.push(val),
            final(self).ticket_bound() == old(self).ticket_bound() + 1,
            final(self).retired() == old(self).retired(),
            final(self).footprint() <= old(self).footprint() + 1,
    {
        let ghost c = self.chain@;
        let ghost views0 = self.seg_views();
        self.bound = self.bound + 1;
        let tail_idx: usize = self.tail;
        proof {
            let last = c.len() - 1;
            assert(old(self).segs@[c[last] as int].wf());
            assert(old(self).segs@[c[last] as int].spec_tail() <= old(self).bound);
            old(self).segs@[c[last] as int].lemma_view_len();
        }
        let result = self.segs[tail_idx].enqueue(val);
        match result {
            Ok(()) => {
                proof {
                    let last = c.len() - 1;
                    assert forall|k: int| 0 <= k < last implies (#[trigger] self.segs@[c[k] as int])
                        == old(self).segs@[c[k] as int] by {
                        assert(c[k] != c[last]);
                    }
                    assert(self.chain_ok());
                    assert(self.segs_ok());
                    let views1 = self.seg_views();
                    assert forall|k: int| 0 <= k < last implies views1[k] == views0[k] by {
                        assert(c[k] != c[last]);
                    }
                    assert(views1[last] == views0[last].push(val));
                    assert(views0 =~= views0.take(last) + seq![views0[last]]);
                    assert(views1 =~= views0.take(last) + seq![views0[last].push(val)]);
                    vstd::seq_lib::lemma_flatten_concat(views0.take(last), seq![views0[last]]);
                    vstd::seq_lib::lemma_flatten_concat(
                        views0.take(last),
                        seq![views0[last].push(val)],
                    );
                    seq![views0[last]].lemma_flatten_one_element();
                    seq![views0[last].push(val)].lemma_flatten_one_element();
                    assert(self@ =~= old(self)@.push(val));
                }
            },
            Err(v) => {
                // The tail segment is closed: open a fresh segment that
                // already holds the value, link it, and swing the tail.
                let ghost segs0 = old(self).segs@;
                let new_seg: PRQ<T, N> = PRQ::new_with_item(v);
                let new_addr: usize = self.segs.len();
                proof {
                    assert(tail_idx < new_addr);
                }
                self.segs.push(new_seg);
                self.segs[tail_idx].install_next(new_addr);
                self.tail = new_addr;
                self.chain = Ghost(c.push(new_addr));
                proof {
                    let c2 = self.chain@;
                    let last = c.len() - 1;
                    // untouched middle segments keep their whole state
                    assert forall|k: int| 0 <= k < last implies (#[trigger] self.segs@[c[k] as int])
                        == segs0[c[k] as int] by {
                        assert(c[k] != c[last]);
                        assert(c[k] < segs0.len());
                    }
                    // the old tail segment: closed by the failed enqueue,
                    // contents kept, now linked to the new segment
                    let old_tail_seg = self.segs@[tail_idx as int];
                    assert(old_tail_seg.wf());
                    assert(old_tail_seg.spec_closed());
                    assert(old_tail_seg.next_addr() == new_addr);
                    assert(old_tail_seg@ == segs0[tail_idx as int]@);
                    assert(old_tail_seg.spec_tail() == segs0[tail_idx as int].spec_tail());
                    // the new tail segment
                    assert(self.segs@[new_addr as int] == new_seg);
                    assert forall|k: int| 0 <= k < c2.len() implies 1 <= #[trigger] c2[k]
                        < self.segs.len() by {
                        if k < c.len() {
                            assert(c2[k] == c[k]);
                        }
                    }
                    assert forall|k: int|
                        0 <= k < c2.len() - 1 implies (#[trigger] self.segs@[c2[k] as int]).next_addr()
                        == c2[k + 1] by {
                        if k < last {
                            assert(c[k] != c[last]);
                        }
                    }
                    assert(self.chain_ok());
                    assert forall|k: int|
                        0 <= k < c2.len() implies (#[trigger] self.segs@[c2[k] as int]).wf()
                        && self.segs@[c2[k] as int].spec_tail() <= self.bound by {
                        if k < last {
                            assert(c[k] != c[last]);
                        }
                    }
                    assert forall|k: int|
                        0 <= k < c2.len() - 1 implies (#[trigger] self.segs@[c2[k] as int]).spec_closed() by {
                        if k < last {
                            assert(c[k] != c[last]);
                        }
                    }
                    assert(self.segs_ok());
                    let r = self.port@;
                    assert forall|i: int| 0 <= i < r.len() implies !c2.contains(#[trigger] r[i]) by {
                        assert(!c.contains(r[i]));
                        if c2.contains(r[i]) {
                            let k = choose|k: int| 0 <= k < c2.len() && c2[k] == r[i];
                            if k < c.len() {
                                assert(c.contains(r[i]));
                            }
                        }
                    }
                    assert forall|a: usize|
                        1 <= a < self.segs.len() implies (#[trigger] c2.contains(a)
                        || self.port@.contains(a)) by {
                        if a < segs0.len() {
                            if c.contains(a) {
                                let k = choose|k: int| 0 <= k < c.len() && c[k] == a;
                                assert(c2[k] == a);
                            }
                        } else {
                            assert(c2[c.len() as int] == new_addr);
                        }
                    }
                    // the old segments kept their contents; the new one
                    // holds exactly the enqueued value
                    let views1 = self.seg_views();
                    assert forall|k: int| 0 <= k < c.len() implies views1[k] == views0[k] by {
                        if k < last {
                            assert(c[k] != c[last]);
                        }
                    }
                    assert(views1[c.len() as int] == Seq::<T>::empty().push(val));
                    assert(views1 =~= views0 + seq![Seq::<T>::empty().push(val)]);
                    vstd::seq_lib::lemma_flatten_concat(views0, seq![Seq::<T>::empty().push(val)]);
                    seq![Seq::<T>::empty().push(val)].lemma_flatten_one_element();
                    assert(self@ =~= old(self)@.push(val));
                }
            },
        }
    }

    /// Removes and returns the front value, or `None` when the whole queue
    /// is empty. A drained head segment whose successor exists is unlinked
    /// and retired along the way.
    pub fn dequeue(&mut self) -> (r: Option<T>)
        requires
            old(self).wf(),
            old(self).can_dequeue(),
        ensures
            final(self).wf(),
            final(self).ticket_bound() == old(self).ticket_bound() + 1,
            final(self).footprint() == old(self).footprint(),
            final(self).retired() >= old(self).retired(),
            old(self)@.len() == 0 ==> r is None && final(self)@ == old(self)@,
            old(self)@.len() > 0 ==> r == Some(old(self)@[0]) && final(self)@ == old(
                self,
            )@.subrange(1, old(self)@.len() as int),
    {
        let ghost old_bound = old(self).bound;
        self.bound = self.bound + 1;
        loop
            invariant
                self.wf(),
                self@ == old(self)@,
                old_bound == old(self).ticket_bound(),
                self.bound == old_bound + 1,
                old_bound < TICKET_LIMIT,
                self.footprint() == old(self).footprint(),
                self.retired() >= old(self).retired(),
                forall|k: int|
                    0 <= k < self.chain@.len() ==> (#[trigger] self.segs@[self.chain@[k] as int]).spec_tail()
                        <= old_bound,
            ensures
                self.wf(),
                self.bound == old_bound + 1,
                self@.len() == 0,
                self@ == old(self)@,
            decreases self.chain@.len(),
        {
            let ghost c = self.chain@;
            let ghost views0 = self.seg_views();
            let ghost pre = *self;
            let head_idx: usize = self.head;
            let result = self.segs[head_idx].dequeue();
            proof {
                let views1 = self.seg_views();
                assert forall|k: int| 1 <= k < c.len() implies views1[k] == views0[k] by {
                    assert(c[k] != c[0]);
                    assert(self.segs@[c[k] as int] == pre.segs@[c[k] as int]);
                }
                assert(views0.flatten() == views0.first() + views0.drop_first().flatten());
                assert(views1.flatten() == views1.first() + views1.drop_first().flatten());
                assert(views1.drop_first() =~= views0.drop_first());
            }
            match result {
                Some(v) => {
                    // The head segment supplied the front value.
                    proof {
                        assert forall|k: int|
                            0 <= k < self.chain@.len() implies (#[trigger] self.segs@[self.chain@[k] as int]).wf()
                            && self.segs@[self.chain@[k] as int].spec_tail() <= self.bound by {
                            if k > 0 {
                                assert(self.segs@[self.chain@[k] as int] == pre.segs@[self.chain@[k] as int]);
                            }
                        }
                        assert(self@ =~= pre@.subrange(1, pre@.len() as int));
                        assert(pre@[0] == v);
                    }
                    return Some(v);
                },
                None => {
                    // This segment is drained. If nothing follows it, the
                    // queue is empty; otherwise unlink and retire it, and
                    // try again on its successor.
                    proof {
                        assert(views0.first().len() == 0);
                        assert(self@ =~= pre@);
                        assert forall|k: int|
                            0 <= k < self.chain@.len() implies (#[trigger] self.segs@[self.chain@[k] as int]).wf()
                            && self.segs@[self.chain@[k] as int].spec_tail() <= self.bound by {
                            if k > 0 {
                                assert(self.segs@[self.chain@[k] as int] == pre.segs@[self.chain@[k] as int]);
                            }
                        }
                    }
                    let next: usize = self.segs[head_idx].load_next();
                    if next == 0 {
                        // Single live segment and it is empty.
                        proof {
                            assert(c.len() == 1);
                            assert(self@ =~= views0.first());
                        }
                        return None;
                    }
                    proof {
                        assert(c.len() >= 2);
                    }
                    self.head = next;
                    self.port.retire(head_idx);
                    self.chain = Ghost(c.subrange(1, c.len() as int));
                    proof {
                        let c2 = self.chain@;
                        let r2 = self.port@;
                        let r0 = pre.port@;
                        assert forall|i: int| 0 <= i < r2.len() implies !c2.contains(
                            #[trigger] r2[i],
                        ) by {
                            if c2.contains(r2[i]) {
                                let k = choose|k: int| 0 <= k < c2.len() && c2[k] == r2[i];
                                assert(c[k + 1] == r2[i]);
                                if i < r0.len() {
                                    assert(c.contains(r0[i]));
                                } else {
                                    assert(r2[i] == head_idx);
                                    assert(c[0] == head_idx);
                                }
                            }
                        }
                        assert forall|i1: int, i2: int| 0 <= i1 < i2 < r2.len() implies r2[i1]
                            != r2[i2] by {
                            if i2 == r0.len() {
                                assert(r2[i2] == head_idx);
                                assert(c.contains(head_idx));
                                assert(!c.contains(r0[i1]));
                            }
                        }
                        assert forall|a: usize|
                            1 <= a < self.segs.len() implies (#[trigger] c2.contains(a)
                            || r2.contains(a)) by {
                            if c.contains(a) {
                                let k = choose|k: int| 0 <= k < c.len() && c[k] == a;
                                if k == 0 {
                                    assert(r2[r0.len() as int] == head_idx);
                                    assert(r2.contains(a));
                                } else {
                                    assert(c2[k - 1] == a);
                                }
                            } else {
                                assert(r0.contains(a));
                                let i = choose|i: int| 0 <= i < r0.len() && r0[i] == a;
                                assert(r2[i] == a);
                            }
                        }
                        // the remaining segments kept their contents, so
                        // dropping the drained first segment keeps the view
                        let views1 = Seq::new(c.len(), |k: int| self.segs@[c[k] as int]@);
                        let views2 = self.seg_views();
                        assert(views2 =~= views1.drop_first());
                        assert(views1 =~= views0);
                        assert(self@ =~= pre@);
                    }
                },
            }
        }
        proof {
            assert(old(self)@.len() == 0);
        }
        None
    }

    /// Dequeues until empty and returns everything, in queue order: every
    /// value that was in the queue comes out exactly once.
    pub fn drain(&mut self) -> (r: Vec<T>)
        requires
            old(self).wf(),
            old(self).ticket_bound() + old(self)@.len() < TICKET_LIMIT,
        ensures
            final(self).wf(),
            final(self)@.len() == 0,
            r@ == old(self)@,
    {
        let mut out: Vec<T> = Vec::new();
        proof {
            assert(out@ + self@ =~= self@);
        }
        loop
            invariant_except_break
                self.ticket_bound() + self@.len() <= old(self).ticket_bound() + old(self)@.len(),
            invariant
                self.wf(),
                out@ + self@ == old(self)@,
                old(self).ticket_bound() + old(self)@.len() < TICKET_LIMIT,
            ensures
                self.wf(),
                self@.len() == 0,
                out@ + self@ == old(self)@,
            decreases self@.len(),
        {
            let ghost before = self@;
            let ghost out_before = out@;
            match self.dequeue() {
                Some(v) => {
                    out.push(v);
                    proof {
                        assert(out@ + self@ =~= out_before + before);
                    }
                },
                None => {
                    break ;
                },
            }
        }
        proof {
            assert(out@ =~= out@ + self@);
        }
        out
    }
}

/// A handle that presents the segmented queue through the
/// [`SharedQueue`] interface.
pub struct SharedLPRQ<T, const N: usize> {
    pub queue: LPRQ<T, N>,
}

impl<T, const N: usize> crate::shared_queue::SharedQueue<T> for SharedLPRQ<T, N> {
    open spec fn wf(self) -> bool {
        self.queue.wf()
    }

    open spec fn contents(self) -> Seq<T> {
        self.queue@
    }

    open spec fn can_enqueue(self) -> bool {
        self.queue.can_enqueue()
    }

    open spec fn can_dequeue(self) -> bool {
        self.queue.can_dequeue()
    }

    open spec fn constructible() -> bool {
        1 <= N && (N as u64) < TICKET_LIMIT
    }

    fn new() -> (q: Self) {
        SharedLPRQ { queue: LPRQ::new() }
    }

    fn enqueue(&mut self, val: T) {
        self.queue.enqueue(val)
    }

    fn dequeue(&mut self) -> (r: Option<T>) {
        self.queue.dequeue()
    }
}

} // verus!
