//! The interface shared by the queues of this crate.
use vstd::prelude::*;

verus! {

/// A FIFO queue of values of type `T`. `contents` is the abstract state:
/// the queued values, front first. Enqueuing appends at the back; dequeuing
/// removes the front value exactly, or reports emptiness — so nothing is
/// lost, duplicated or reordered.
pub trait SharedQueue<T>: Sized {
    /// Well-formedness of the queue's internal structure; established by
    /// `new` and preserved by every operation.
    spec fn wf(self) -> bool;

    /// The queued values, front first.
    spec fn contents(self) -> Seq<T>;

    /// Whether one more value can be appended without exhausting the
    /// address or counter space of the queue's links.
    spec fn can_enqueue(self) -> bool;

    /// Whether one more dequeue ticket can be taken.
    spec fn can_dequeue(self) -> bool;

    /// Whether the type's parameters allow a queue at all (a segmented
    /// queue needs a positive segment capacity).
    spec fn constructible() -> bool;

    /// An empty queue.
    fn new() -> (q: Self)
        requires
            Self::constructible(),
        ensures
            q.wf(),
            q.contents() == Seq::<T>::empty(),
    ;

    /// Appends `val` at the back.
    fn enqueue(&mut self, val: T)
        requires
            old(self).wf(),
            old(self).can_enqueue(),
        ensures
            final(self).wf(),
            final(self).contents() == old(self).contents().push(val),
    ;

    /// Removes and returns the front value; `None` exactly when the queue
    /// is empty, which changes nothing.
    fn dequeue(&mut self) -> (r: Option<T>)
        requires
            old(self).wf(),
            old(self).can_dequeue(),
        ensures
            final(self).wf(),
            old(self).contents().len() == 0 ==> r is None && final(self).contents() == old(self).contents(),
            old(self).contents().len() > 0 ==> r == Some(old(self).contents()[0])
                && final(self).contents() == old(self).contents().subrange(
                1,
                old(self).contents().len() as int,
            ),
    ;
}

/// FIFO order: appending `a` and then `b` to any queue contents leaves
/// every earlier value in place, puts `a` before `b`, and dequeues return
/// positions front to back — so values enqueued by one producer come back
/// in their enqueue order.
pub proof fn lemma_fifo_order<T>(s: Seq<T>, a: T, b: T)
    ensures
        s.push(a).push(b)[s.len() as int] == a,
        s.push(a).push(b)[s.len() as int + 1] == b,
        forall|i: int| 0 <= i < s.len() ==> s.push(a).push(b)[i] == s[i],
{
}

/// Appending a whole run of values keeps the run's internal order: the
/// `i`-th value of the run sits `i` places behind the old back of the
/// queue.
pub proof fn lemma_enqueue_run_order<T>(s: Seq<T>, vs: Seq<T>)
    ensures
        forall|i: int| 0 <= i < vs.len() ==> (s + vs)[s.len() + i] == vs[i],
        forall|i: int| 0 <= i < s.len() ==> (s + vs)[i] == s[i],
{
}

/// No duplication, no loss: one dequeue removes exactly one occurrence —
/// the front one — from the queue's contents, as multisets.
pub proof fn lemma_dequeue_exactly_once<T>(s: Seq<T>)
    requires
        s.len() > 0,
    ensures
        s.to_multiset() == s.subrange(1, s.len() as int).to_multiset().insert(s[0]),
{
    broadcast use vstd::seq_lib::group_to_multiset_ensures;

    assert(s.remove(0) =~= s.subrange(1, s.len() as int));
    assert(s.remove(0).to_multiset() =~= s.to_multiset().remove(s[0]));
    assert(s.contains(s[0]));
    assert(s.to_multiset().count(s[0]) > 0);
    assert(s.to_multiset().remove(s[0]).insert(s[0]) =~= s.to_multiset());
}

/// A full drain conserves the values exactly: what comes out is, as a
/// multiset, what was in.
pub proof fn lemma_drain_conserves<T>(drained: Seq<T>, contents: Seq<T>)
    requires
        drained == contents,
    ensures
        drained.to_multiset() == contents.to_multiset(),
{
}

} // verus!
