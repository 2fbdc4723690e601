//! An unbounded lock-free-style FIFO queue: a singly linked list with a
//! sentinel head node (Michael–Scott).
//!
//! Nodes live in a preallocated arena and are linked by tagged words
//! ([`AtomicTagged`]): address in the low 48 bits, a generation tag above.
//! Every structural step — linking a fresh node behind the tail, swinging
//! `tail` to it, advancing `head` past the old sentinel — goes through a
//! full-word compare-and-swap that bumps the tag, so a stale snapshot of a
//! reused address can never pass for the current link. A node that `head`
//! has moved past is handed to the [`ReclamationPort`] and never touched
//! again.
use crate::atomic_tagged::lemma_small_addr_fits;
use crate::atomic_tagged::AtomicTagged;
use crate::atomic_tagged::TaggedPointer;
use crate::reclamation::ReclamationPort;
use vstd::prelude::*;

verus! {

/// One more than the largest address the 48-bit field can carry.
pub const MAX_NODES: u64 = 0x1_0000_0000_0000;

/// One queue node: an owned value and a tagged link to the next node
/// (address 0 when there is none). The sentinel at the front of the list
/// holds no value.
#[derive(Debug)]
pub struct Node<T> {
    value: Option<T>,
    next: AtomicTagged,
}

impl<T> Node<T> {
    /// The value held, if any.
    pub closed spec fn spec_value(self) -> Option<T> {
        self.value
    }

    /// The address half of the `next` link.
    pub closed spec fn next_addr(self) -> u64 {
        self.next.addr()
    }

    /// A node holding `value`, with no successor yet.
    pub fn new(value: T) -> (r: Node<T>)
        ensures
            r.spec_value() == Some(value),
            r.next_addr() == 0,
    {
        proof {
            lemma_small_addr_fits(0);
        }
        Node { value: Some(value), next: AtomicTagged::new(0, 0) }
    }

    /// A node holding nothing: the initial sentinel.
    pub fn empty() -> (r: Node<T>)
        ensures
            r.spec_value() is None,
            r.next_addr() == 0,
    {
        proof {
            lemma_small_addr_fits(0);
        }
        Node { value: None, next: AtomicTagged::new(0, 0) }
    }
}

/// The unbounded FIFO queue. `head` addresses the sentinel; the values in
/// the queue hang off it in list order, and `tail` addresses the last node.
pub struct Queue<T> {
    nodes: Vec<Node<T>>,
    head: AtomicTagged,
    tail: AtomicTagged,
    port: ReclamationPort,
    chain: Ghost<Seq<usize>>,
}

impl<T> View for Queue<T> {
    type V = Seq<T>;

    /// The queued values, front first: the values hanging off the sentinel.
    closed spec fn view(&self) -> Seq<T> {
        Seq::new(
            (self.chain@.len() - 1) as nat,
            |i: int| self.nodes[self.chain@[i + 1] as int].spec_value()->0,
        )
    }
}

impl<T> Queue<T> {
    /// The live list: addresses of the sentinel and every linked node, in
    /// list order.
    spec fn chain_ok(self) -> bool {
        let c = self.chain@;
        &&& c.len() >= 1
        &&& forall|k: int| 0 <= k < c.len() ==> 1 <= #[trigger] c[k] < self.nodes.len()
        &&& forall|k1: int, k2: int| 0 <= k1 < k2 < c.len() ==> c[k1] != c[k2]
        &&& self.head.addr() == c[0] as u64
        &&& self.tail.addr() == c[c.len() - 1] as u64
        &&& forall|k: int|
            0 <= k < c.len() - 1 ==> (#[trigger] self.nodes[c[k] as int]).next_addr() == c[k
                + 1] as u64
        &&& self.nodes[c[c.len() - 1] as int].next_addr() == 0
        &&& forall|k: int| 1 <= k < c.len() ==> (#[trigger] self.nodes[c[k] as int]).spec_value() is Some
    }

    /// Retired addresses are real, are distinct, and never overlap the live
    /// list: a retired node cannot be reached again.
    spec fn retired_ok(self) -> bool {
        let r = self.port@;
        &&& forall|i: int| 0 <= i < r.len() ==> 1 <= #[trigger] r[i] < self.nodes.len()
        &&& forall|i: int| 0 <= i < r.len() ==> !self.chain@.contains(#[trigger] r[i])
        &&& forall|i1: int, i2: int| 0 <= i1 < i2 < r.len() ==> r[i1] != r[i2]
    }

    /// Every node ever allocated is accounted for: still linked, or handed
    /// to the reclamation port — nothing leaks and nothing is freed twice.
    spec fn conserved(self) -> bool {
        forall|a: usize|
            1 <= a < self.nodes.len() ==> (#[trigger] self.chain@.contains(a)
                || self.port@.contains(a))
    }

    /// Well-formedness: the whole structural invariant of the queue.
    pub closed spec fn wf(self) -> bool {
        &&& 2 <= self.nodes.len() <= MAX_NODES
        &&& self.chain_ok()
        &&& self.retired_ok()
        &&& self.conserved()
    }

    /// How many nodes the queue has ever allocated (the arena footprint);
    /// grows by one per enqueue and bounds how many more are possible.
    pub closed spec fn footprint(self) -> nat {
        self.nodes.len() as nat
    }

    /// Whether one more node can be allocated under the 48-bit address
    /// space of the tagged links.
    pub open spec fn can_enqueue(self) -> bool {
        self.footprint() < MAX_NODES
    }

    /// How many nodes have been handed to the reclamation port.
    pub closed spec fn retired(self) -> nat {
        self.port@.len()
    }

    /// Conservation of nodes: every allocation is accounted for — the null
    /// placeholder, the sentinel, one live node per queued value, and the
    /// retired nodes. Nothing leaks and nothing is freed twice.
    pub proof fn lemma_node_conservation(self)
        requires
            self.wf(),
        ensures
            self.footprint() == 2 + self@.len() + self.retired(),
    {
        crate::reclamation::lemma_address_partition(
            self.chain@,
            self.port@,
            self.nodes.len() as int,
        );
    }

    /// Whether the arena can still take one more node: callers outside the
    /// proof system can test the enqueue precondition with this.
    pub fn has_node_room(&self) -> (r: bool)
        ensures
            r == self.can_enqueue(),
    {
        (self.nodes.len() as u64) < MAX_NODES
    }

    /// An empty queue: one sentinel, nothing linked behind it.
    pub fn new() -> (q: Queue<T>)
        ensures
            q.wf(),
            q@ == Seq::<T>::empty(),
            q.footprint() == 2,
    {
        let mut nodes: Vec<Node<T>> = Vec::new();
        nodes.push(Node::empty());  // address 0 stands for null and is never linked
        nodes.push(Node::empty());  // address 1: the sentinel
        proof {
            lemma_small_addr_fits(1);
        }
        let ghost initial_chain: Seq<usize> = seq![1usize];
        let q = Queue {
            nodes,
            head: AtomicTagged::new(1, 0),
            tail: AtomicTagged::new(1, 0),
            port: ReclamationPort::new(),
            chain: Ghost(initial_chain),
        };
        proof {
            assert(q@ =~= Seq::<T>::empty());
        }
        q
    }

    /// Appends `value` at the tail: allocate a node, link it behind the
    /// current tail under a bumped tag, then swing `tail` to it.
    pub fn enqueue(&mut self, value: T)
        requires
            old(self).wf(),
            old(self).can_enqueue(),
        ensures
            final(self).wf(),
            final(self)@ == old(self)@.push(value),
            final(self).footprint() == old(self).footprint() + 1,
            final(self).retired() == old(self).retired(),
    {
        let ghost c = self.chain@;
        let ghost n0 = self.nodes@;
        let node_addr: usize = self.nodes.len();
        proof {
            lemma_small_addr_fits(node_addr as u64);
        }
        self.nodes.push(Node::new(value));

        // Snapshot the tail and its next link.
        let tagged_tail = self.tail.load();
        let tail_idx: usize = tagged_tail.ptr() as usize;
        proof {
            assert(tagged_tail.addr() == c[c.len() - 1] as u64);
            assert(tail_idx == c[c.len() - 1]);
        }
        let tagged_next = self.nodes[tail_idx].next.load();
        // The tail node has no successor: link the new node behind it,
        // under a bumped tag.
        let new_link = TaggedPointer::new(node_addr as u64, tagged_next.tag().wrapping_add(1));
        let _ = self.nodes[tail_idx].next.compare_exchange(&tagged_next, &new_link);
        // Swing the tail to the new node, again bumping the tag.
        let new_tail = TaggedPointer::new(node_addr as u64, tagged_tail.tag().wrapping_add(1));
        let _ = self.tail.compare_exchange(&tagged_tail, &new_tail);
        self.chain = Ghost(c.push(node_addr));
        proof {
            let c2 = self.chain@;
            let n2 = self.nodes@;
            assert forall|k: int| 0 <= k < c2.len() implies 1 <= #[trigger] c2[k]
                < self.nodes.len() by {
                if k < c.len() {
                    assert(c2[k] == c[k]);
                }
            }
            assert forall|k: int| 0 <= k < c2.len() - 1 implies (#[trigger] n2[c2[k] as int]).next_addr()
                == c2[k + 1] as u64 by {
                if k < c.len() - 1 {
                    assert(c[k] != c[c.len() - 1]);
                    assert(n2[c2[k] as int] == n0[c[k] as int]);
                }
            }
            assert forall|k: int| 1 <= k < c2.len() implies (#[trigger] n2[c2[k] as int]).spec_value() is Some by {
                if k < c.len() {
                    assert(n2[c2[k] as int].spec_value() == n0[c[k] as int].spec_value());
                }
            }
            let r = self.port@;
            assert forall|i: int| 0 <= i < r.len() implies !c2.contains(#[trigger] r[i]) by {
                assert(!c.contains(r[i]));
                if c2.contains(r[i]) {
                    let k = choose|k: int| 0 <= k < c2.len() && c2[k] == r[i];
                    if k < c.len() {
                        assert(c.contains(r[i]));
                    }
                }
            }
            assert forall|a: usize| 1 <= a < self.nodes.len() implies (#[trigger] c2.contains(a)
                || self.port@.contains(a)) by {
                if a < n0.len() {
                    if c.contains(a) {
                        let k = choose|k: int| 0 <= k < c.len() && c[k] == a;
                        assert(c2[k] == a);
                    }
                } else {
                    assert(c2[c.len() as int] == node_addr);
                }
            }
            assert(self@ =~= old(self)@.push(value));
        }
    }

    /// Removes and returns the front value, or `None` when the queue is
    /// empty. The value is read out of the node behind the sentinel before
    /// `head` is advanced to it; the old sentinel is then retired.
    pub fn dequeue(&mut self) -> (r: Option<T>)
        requires
            old(self).wf(),
        ensures
            final(self).wf(),
            final(self).footprint() == old(self).footprint(),
            old(self)@.len() == 0 ==> r is None && final(self)@ == old(self)@ && final(self).retired() == old(self).retired(),
            old(self)@.len() > 0 ==> r == Some(old(self)@[0]) && final(self)@ == old(
                self,
            )@.subrange(1, old(self)@.len() as int) && final(self).retired() == old(self).retired()
                + 1,
    {
        let ghost c = self.chain@;
        let ghost n0 = self.nodes@;
        let tagged_head = self.head.load();
        let head_idx: usize = tagged_head.ptr() as usize;
        proof {
            assert(tagged_head.addr() == c[0] as u64);
            assert(head_idx == c[0]);
        }
        let tagged_next = self.nodes[head_idx].next.load();

        if tagged_next.ptr() == 0 {
            // The sentinel has no successor: the queue is empty.
            proof {
                if c.len() > 1 {
                    assert(n0[c[0] as int].next_addr() == c[1] as u64);
                    assert(c[1] >= 1);
                }
                assert(c.len() == 1);
            }
            return None;
        }
        // There is a node behind the sentinel; it holds the front value.
        proof {
            if c.len() == 1 {
                assert(n0[c[0] as int].next_addr() == 0);
            }
            assert(c.len() >= 2);
            assert(n0[c[0] as int].next_addr() == c[1] as u64);
        }
        let next_idx: usize = tagged_next.ptr() as usize;
        proof {
            assert(next_idx == c[1]);
        }
        // Read the value out before moving `head`: after the move the node
        // becomes the new sentinel and the slot must be empty.
        let mut taken: Option<T> = None;
        core::mem::swap(&mut self.nodes[next_idx].value, &mut taken);
        // Advance `head` past the old sentinel, bumping the tag.
        proof {
            crate::atomic_tagged::lemma_decoded_addr_fits(tagged_next.word());
        }
        let new_head = TaggedPointer::new(tagged_next.ptr(), tagged_head.tag().wrapping_add(1));
        let _ = self.head.compare_exchange(&tagged_head, &new_head);
        // The old sentinel is now unreachable: hand it to the port.
        self.port.retire(head_idx);
        self.chain = Ghost(c.subrange(1, c.len() as int));
        proof {
            let c2 = self.chain@;
            let n2 = self.nodes@;
            let r0 = old(self).port@;
            let r2 = self.port@;
            assert forall|k: int| 0 <= k < c2.len() - 1 implies (#[trigger] n2[c2[k] as int]).next_addr()
                == c2[k + 1] as u64 by {
                assert(c2[k] == c[k + 1]);
                assert(c[k + 1] != c[1] || k == 0);
                assert(n2[c2[k] as int].next_addr() == n0[c2[k] as int].next_addr());
            }
            assert forall|k: int| 1 <= k < c2.len() implies (#[trigger] n2[c2[k] as int]).spec_value() is Some by {
                assert(c2[k] == c[k + 1]);
                assert(c[k + 1] != c[1]);
                assert(n2[c2[k] as int].spec_value() == n0[c[k + 1] as int].spec_value());
            }
            assert forall|i: int| 0 <= i < r2.len() implies !c2.contains(#[trigger] r2[i]) by {
                if c2.contains(r2[i]) {
                    let k = choose|k: int| 0 <= k < c2.len() && c2[k] == r2[i];
                    assert(c[k + 1] == r2[i]);
                    if i < r0.len() {
                        assert(c.contains(r0[i]));
                    } else {
                        assert(r2[i] == head_idx);
                        assert(c[0] == head_idx);
                    }
                }
            }
            assert forall|i1: int, i2: int| 0 <= i1 < i2 < r2.len() implies r2[i1] != r2[i2] by {
                if i2 == r0.len() {
                    assert(r2[i2] == head_idx);
                    assert(c.contains(head_idx));
                    assert(!c.contains(r0[i1]));
                }
            }
            assert forall|a: usize| 1 <= a < self.nodes.len() implies (#[trigger] c2.contains(a)
                || r2.contains(a)) by {
                if c.contains(a) {
                    let k = choose|k: int| 0 <= k < c.len() && c[k] == a;
                    if k == 0 {
                        assert(r2[r0.len() as int] == head_idx);
                        assert(r2.contains(a));
                    } else {
                        assert(c2[k - 1] == a);
                        assert(c2.contains(a));
                    }
                } else {
                    assert(r0.contains(a));
                    let i = choose|i: int| 0 <= i < r0.len() && r0[i] == a;
                    assert(r2[i] == a);
                }
            }
            assert(taken == n0[c[1] as int].spec_value());
            assert(old(self)@[0] == n0[c[1] as int].spec_value()->0);
            assert(self@ =~= old(self)@.subrange(1, old(self)@.len() as int));
        }
        taken
    }

    /// The current contents, read without consuming: walks the links from
    /// the sentinel to the tail and copies each value out, the way a debug
    /// printer inspects the queue's state.
    pub fn snapshot(&self) -> (r: Vec<T>) where T: Copy
        requires
            self.wf(),
        ensures
            r@ == self@,
    {
        let ghost c = self.chain@;
        let mut out: Vec<T> = Vec::new();
        let tagged_head = self.head.load();
        let mut cur: usize = tagged_head.ptr() as usize;
        let ghost mut k: int = 0;
        proof {
            assert(cur == c[0]);
            assert(out@ =~= self@.take(0));
        }
        loop
            invariant
                self.wf(),
                c == self.chain@,
                0 <= k < c.len(),
                cur == c[k],
                out@ == self@.take(k),
            ensures
                out@ == self@,
            decreases c.len() - k,
        {
            let tagged_next = self.nodes[cur].next.load();
            if tagged_next.ptr() == 0 {
                // no further node: `cur` is the tail
                proof {
                    if k < c.len() - 1 {
                        assert(self.nodes@[c[k] as int].next_addr() == c[k + 1] as u64);
                        assert(c[k + 1] >= 1);
                    }
                    assert(k == c.len() - 1);
                    assert(out@ =~= self@);
                }
                break ;
            }
            proof {
                if k == c.len() - 1 {
                    assert(self.nodes@[c[k] as int].next_addr() == 0);
                }
                assert(k < c.len() - 1);
                assert(tagged_next.addr() == c[k + 1] as u64);
            }
            let next_idx: usize = tagged_next.ptr() as usize;
            proof {
                assert(next_idx == c[k + 1]);
            }
            match self.nodes[next_idx].value {
                Some(v) => {
                    out.push(v);
                },
                None => {
                    proof {
                        assert(false);
                    }
                },
            }
            cur = next_idx;
            proof {
                k = k + 1;
                assert(out@ =~= self@.take(k));
            }
        }
        out
    }

    /// Dequeues until empty and returns everything, in queue order: every
    /// value that was in the queue comes out exactly once.
    pub fn drain(&mut self) -> (r: Vec<T>)
        requires
            old(self).wf(),
        ensures
            final(self).wf(),
            final(self)@.len() == 0,
            r@ == old(self)@,
            final(self).footprint() == old(self).footprint(),
    {
        let mut out: Vec<T> = Vec::new();
        proof {
            assert(out@ + self@ =~= self@);
        }
        loop
            invariant
                self.wf(),
                out@ + self@ == old(self)@,
                self.footprint() == old(self).footprint(),
            ensures
                self.wf(),
                self@.len() == 0,
                out@ + self@ == old(self)@,
                self.footprint() == old(self).footprint(),
            decreases self@.len(),
        {
            let ghost before = self@;
            let ghost out_before = out@;
            match self.dequeue() {
                Some(v) => {
                    out.push(v);
                    proof {
                        assert(out@ + self@ =~= out_before + before);
                    }
                },
                None => {
                    break ;
                },
            }
        }
        proof {
            assert(out@ =~= out@ + self@);
        }
        out
    }
}

/// A handle that presents the queue through the [`SharedQueue`] interface.
pub struct MSQueue<T> {
    pub queue: Queue<T>,
}

impl<T> crate::shared_queue::SharedQueue<T> for MSQueue<T> {
    open spec fn wf(self) -> bool {
        self.queue.wf()
    }

    open spec fn contents(self) -> Seq<T> {
        self.queue@
    }

    open spec fn can_enqueue(self) -> bool {
        self.queue.can_enqueue()
    }

    open spec fn can_dequeue(self) -> bool {
        true
    }

    open spec fn constructible() -> bool {
        true
    }

    fn new() -> (q: Self) {
        MSQueue { queue: Queue::new() }
    }

    fn enqueue(&mut self, val: T) {
        self.queue.enqueue(val)
    }

    fn dequeue(&mut self) -> (r: Option<T>) {
        self.queue.dequeue()
    }
}

} // verus!
