//! A bounded ring segment (CRQ-style): `N` slots, each carrying a
//! `(safe, epoch)` stamp packed into one word next to a value slot.
//!
//! `head` and `tail` are monotonically increasing tickets that never wrap:
//! a ticket `t` addresses slot `t % N` on cycle `t / N`. A slot is one of
//! empty, claimed (an unforgeable token placed while an enqueue is
//! publishing) or a real value, and a real value sits in a slot only while
//! the slot's epoch equals the cycle that owns it. When the tail outruns
//! the head by `N` the segment closes and every further enqueue fails with
//! `Err`, which the segmented queue above turns into opening a fresh
//! segment.
use vstd::arithmetic::div_mod::lemma_fundamental_div_mod;
use vstd::arithmetic::div_mod::lemma_fundamental_div_mod_converse_div;
use vstd::arithmetic::div_mod::lemma_fundamental_div_mod_converse_mod;
use vstd::arithmetic::div_mod::lemma_mod_bound;
use vstd::prelude::*;

verus! {

/// The top bit of the stamp word: the safe flag.
pub const SAFE_BIT_MASK: u64 = 0x8000_0000_0000_0000;

/// The low 63 bits of the stamp word: the epoch.
pub const EPOCH_MASK: u64 = 0x7FFF_FFFF_FFFF_FFFF;

/// The top bit of a claim-token word.
pub const TOKEN_MASK: u64 = 0x8000_0000_0000_0000;

/// Tickets stay below this bound so that a cycle always fits the 63-bit
/// epoch field and a ticket increment cannot overflow.
pub const TICKET_LIMIT: u64 = 0x8000_0000_0000_0000;

/// The (safe, epoch) pair packed in a stamp word.
pub open spec fn spec_sae_unpack(raw: u64) -> (bool, u64) {
    ((raw & SAFE_BIT_MASK) != 0, raw & EPOCH_MASK)
}

/// The stamp word for a (safe, epoch) pair.
pub open spec fn spec_sae_pack(safe: bool, epoch: u64) -> u64 {
    ((if safe {
        1u64
    } else {
        0u64
    }) << 63) | epoch
}

/// Unpacking a packed stamp gives back exactly the pair that went in, for
/// every epoch that fits the 63-bit field.
pub proof fn lemma_sae_round_trip(safe: bool, epoch: u64)
    requires
        epoch <= EPOCH_MASK,
    ensures
        spec_sae_unpack(spec_sae_pack(safe, epoch)) == (safe, epoch),
{
    if safe {
        assert((((1u64 << 63) | epoch) & 0x8000_0000_0000_0000u64 != 0) && (((1u64 << 63) | epoch)
            & 0x7FFF_FFFF_FFFF_FFFFu64 == epoch)) by (bit_vector)
            requires
                epoch <= 0x7FFF_FFFF_FFFF_FFFFu64,
        ;
    } else {
        assert((((0u64 << 63) | epoch) & 0x8000_0000_0000_0000u64 == 0) && (((0u64 << 63) | epoch)
            & 0x7FFF_FFFF_FFFF_FFFFu64 == epoch)) by (bit_vector)
            requires
                epoch <= 0x7FFF_FFFF_FFFF_FFFFu64,
        ;
    }
}

/// Packing the unpacked halves of any stamp word gives the word back: the
/// two fields cover the word exactly.
pub proof fn lemma_sae_pack_unpack(raw: u64)
    ensures
        spec_sae_pack(spec_sae_unpack(raw).0, spec_sae_unpack(raw).1) == raw,
        spec_sae_unpack(raw).1 <= EPOCH_MASK,
{
    assert((((if raw & 0x8000_0000_0000_0000u64 != 0 {
        1u64
    } else {
        0u64
    }) << 63) | (raw & 0x7FFF_FFFF_FFFF_FFFFu64)) == raw && raw & 0x7FFF_FFFF_FFFF_FFFFu64
        <= 0x7FFF_FFFF_FFFF_FFFFu64) by (bit_vector);
}

/// A value slot: empty, claimed by an in-flight enqueue (the token is
/// unforgeable: nothing else constructs it), or holding a published value.
#[derive(Debug)]
pub enum Slot<T> {
    Empty,
    Token(u64),
    Value(T),
}

impl<T> Slot<T> {
    /// The published value, if one is present.
    pub open spec fn value_of(self) -> Option<T> {
        match self {
            Slot::Value(v) => Some(v),
            _ => None,
        }
    }
}

/// One ring slot: a packed (safe, epoch) stamp and a value slot.
#[derive(Debug)]
pub struct Cell<T> {
    safe_and_epoch: u64,
    value: Slot<T>,
}

impl<T> Default for Cell<T> {
    /// A fresh slot: safe, epoch 0, empty.
    fn default() -> (r: Self)
        ensures
            r.spec_safe(),
            r.spec_epoch() == 0,
            r.spec_slot() is Empty,
    {
        proof {
            assert(spec_sae_unpack(0x8000_0000_0000_0000u64) == (true, 0u64)) by (bit_vector);
        }
        Cell { safe_and_epoch: SAFE_BIT_MASK, value: Slot::Empty }
    }
}

impl<T> Cell<T> {
    /// The safe flag of the stamp.
    pub closed spec fn spec_safe(self) -> bool {
        spec_sae_unpack(self.safe_and_epoch).0
    }

    /// The epoch of the stamp.
    pub closed spec fn spec_epoch(self) -> u64 {
        spec_sae_unpack(self.safe_and_epoch).1
    }

    /// The value slot.
    pub closed spec fn spec_slot(self) -> Slot<T> {
        self.value
    }

    /// The stamp, unpacked.
    pub fn load_safe_and_epoch(&self) -> (r: (bool, u64))
        ensures
            r == (self.spec_safe(), self.spec_epoch()),
    {
        Self::sae_from_usize(self.safe_and_epoch)
    }

    /// Compare-and-swap on the packed stamp: replaces it with `new` exactly
    /// when it still unpacks to `current`, and returns the stamp found.
    pub fn compare_exchange_safe_and_epoch(
        &mut self,
        current: (bool, u64),
        new: (bool, u64),
    ) -> (r: Result<(bool, u64), (bool, u64)>)
        requires
            current.1 <= EPOCH_MASK,
            new.1 <= EPOCH_MASK,
        ensures
            final(self).spec_slot() == old(self).spec_slot(),
            current == (old(self).spec_safe(), old(self).spec_epoch()) ==> final(self).spec_safe()
                == new.0 && final(self).spec_epoch() == new.1 && r == Ok::<
                (bool, u64),
                (bool, u64),
            >(new),
            current != (old(self).spec_safe(), old(self).spec_epoch()) ==> *final(self) == *old(self)
                && r == Err::<(bool, u64), (bool, u64)>(
                (old(self).spec_safe(), old(self).spec_epoch()),
            ),
    {
        proof {
            lemma_sae_pack_unpack(self.safe_and_epoch);
            lemma_sae_round_trip(current.0, current.1);
            lemma_sae_round_trip(new.0, new.1);
        }
        let current_packed = Self::usize_from_sae(current);
        let new_packed = Self::usize_from_sae(new);
        if self.safe_and_epoch == current_packed {
            self.safe_and_epoch = new_packed;
            Ok(Self::sae_from_usize(new_packed))
        } else {
            Err(Self::sae_from_usize(self.safe_and_epoch))
        }
    }

    /// The claim-token word for an enqueuer's identity: only the top bit is
    /// kept, marking the word as a token.
    pub fn make_token(thread_id: u64) -> (r: u64)
        ensures
            r == thread_id & TOKEN_MASK,
    {
        let tagged: u64 = thread_id & TOKEN_MASK;
        tagged
    }

    /// Whether a word carries the token mark in its top bit.
    pub fn is_token(ptr: u64) -> (r: bool)
        ensures
            r == ((ptr & TOKEN_MASK) >> 63 == 1),
    {
        let raw: u64 = (ptr & TOKEN_MASK) >> 63;
        raw == 1
    }

    /// Unpacks a stamp word into its (safe, epoch) pair.
    pub fn sae_from_usize(raw: u64) -> (r: (bool, u64))
        ensures
            r == spec_sae_unpack(raw),
    {
        ((raw & SAFE_BIT_MASK) != 0, raw & EPOCH_MASK)
    }

    /// Packs a (safe, epoch) pair into a stamp word.
    pub fn usize_from_sae(sae: (bool, u64)) -> (r: u64)
        requires
            sae.1 <= EPOCH_MASK,
        ensures
            r == spec_sae_pack(sae.0, sae.1),
            spec_sae_unpack(r) == sae,
    {
        let (safe, epoch) = sae;
        proof {
            lemma_sae_round_trip(safe, epoch);
        }
        let safe_bit: u64 = if safe {
            1
        } else {
            0
        };
        (safe_bit << 63) | epoch
    }
}

/// The unique counter in `[h, h + n)` that lands on slot `i`.
spec fn pos_of(h: int, i: int, n: int) -> int {
    let r = h % n;
    if i >= r {
        h - r + i
    } else {
        h - r + i + n
    }
}

proof fn lemma_mul_comm(a: int, b: int)
    by (nonlinear_arith)
    ensures
        a * b == b * a,
{
}

proof fn lemma_mul_cancel(d: int, n: int)
    by (nonlinear_arith)
    requires
        1 <= n,
        -n < d * n < n,
    ensures
        d == 0,
{
}

proof fn lemma_mul_lt(e: int, q: int, n: int)
    by (nonlinear_arith)
    requires
        1 <= n,
        e * n < q * n,
    ensures
        e < q,
{
}

/// A counter's division bounds: the cycle is at most the counter itself.
proof fn lemma_div_bounds(t: int, n: int)
    requires
        0 <= t,
        1 <= n,
    ensures
        0 <= t / n <= t,
{
    lemma_fundamental_div_mod(t, n);
    lemma_mod_bound(t, n);
    assert(0 <= t / n && t / n <= t / n * n) by (nonlinear_arith)
        requires
            1 <= n,
            0 <= t,
            t == n * (t / n) + t % n,
            0 <= t % n < n,
    ;
}

/// `pos_of` lands in the window, on the right slot, and splits cleanly
/// into its cycle and slot.
proof fn lemma_pos_of_props(h: int, i: int, n: int)
    requires
        0 <= h,
        1 <= n,
        0 <= i < n,
    ensures
        h <= pos_of(h, i, n) < h + n,
        pos_of(h, i, n) % n == i,
        pos_of(h, i, n) / n * n + i == pos_of(h, i, n),
{
    lemma_mod_bound(h, n);
    lemma_fundamental_div_mod(h, n);
    let r = h % n;
    let q = h / n;
    let p = pos_of(h, i, n);
    lemma_mul_comm(n, q);
    assert(h == q * n + r);
    if i >= r {
        assert(p == q * n + i);
        lemma_fundamental_div_mod_converse_mod(p, n, q, i);
        lemma_fundamental_div_mod_converse_div(p, n, q, i);
    } else {
        assert((q + 1) * n == q * n + n) by (nonlinear_arith);
        assert(p == (q + 1) * n + i);
        lemma_fundamental_div_mod_converse_mod(p, n, q + 1, i);
        lemma_fundamental_div_mod_converse_div(p, n, q + 1, i);
    }
    lemma_mul_comm(pos_of(h, i, n) / n, n);
}

/// Any counter in the window is the `pos_of` of its own slot: the slot's
/// owning counter is unique within one cycle of the head.
proof fn lemma_pos_of_window(h: int, p: int, n: int)
    requires
        0 <= h,
        1 <= n,
        h <= p < h + n,
    ensures
        0 <= p % n < n,
        pos_of(h, p % n, n) == p,
        p / n * n + p % n == p,
{
    lemma_mod_bound(p, n);
    lemma_fundamental_div_mod(p, n);
    lemma_mul_comm(n, p / n);
    let i = p % n;
    assert(p == p / n * n + i);
    lemma_pos_of_props(h, i, n);
    let p2 = pos_of(h, i, n);
    let q1 = p / n;
    let q2 = p2 / n;
    assert(p2 == q2 * n + i);
    let d = q1 - q2;
    assert(d * n == q1 * n - q2 * n) by (nonlinear_arith)
        requires
            d == q1 - q2,
    ;
    assert(d * n == p - p2);
    lemma_mul_cancel(d, n);
}

/// A free slot whose epoch counter sits below a ticket on the same slot
/// has its epoch strictly behind that ticket's cycle.
proof fn lemma_epoch_behind(e: int, t: int, n: int)
    requires
        1 <= n,
        0 <= e,
        0 <= t,
        e * n + t % n < t,
    ensures
        e < t / n,
{
    lemma_fundamental_div_mod(t, n);
    lemma_mul_comm(n, t / n);
    assert(e * n < (t / n) * n);
    lemma_mul_lt(e, t / n, n);
}

/// The bounded ring segment: `N` slots, ticket counters `head` and `tail`,
/// a closed flag, and a link to the next segment in a chain (0 when none).
pub struct PRQ<T, const N: usize> {
    closed_flag: bool,
    head: u64,
    array: Vec<Cell<T>>,
    tail: u64,
    next: usize,
}

impl<T, const N: usize> View for PRQ<T, N> {
    type V = Seq<T>;

    /// The queued values, front first: the published values at the tickets
    /// in `[head, tail)`.
    closed spec fn view(&self) -> Seq<T> {
        let h = self.head as int;
        let n = N as int;
        Seq::new(
            (self.tail - self.head) as nat,
            |j: int| self.array@[(h + j) % n].spec_slot().value_of()->0,
        )
    }
}

impl<T, const N: usize> PRQ<T, N> {
    /// The dequeue ticket counter.
    pub closed spec fn spec_head(self) -> u64 {
        self.head
    }

    /// The enqueue ticket counter.
    pub closed spec fn spec_tail(self) -> u64 {
        self.tail
    }

    /// Whether the segment has been closed.
    pub closed spec fn spec_closed(self) -> bool {
        self.closed_flag
    }

    /// The address of the successor segment in a chain; 0 when none.
    pub closed spec fn next_addr(self) -> usize {
        self.next
    }

    /// The slot that cell `i`'s next ticket will claim.
    spec fn pos_for(self, i: int) -> int {
        pos_of(self.head as int, i, N as int)
    }

    /// The per-slot invariant: every slot is safe; a slot whose owning
    /// ticket was already enqueued holds a published value stamped with
    /// that ticket's cycle; any other slot is empty with its epoch counter
    /// strictly below the tail.
    spec fn cell_ok(self, i: int) -> bool {
        let t = self.tail as int;
        let n = N as int;
        let p = self.pos_for(i);
        let cell = self.array@[i];
        &&& cell.spec_safe()
        &&& if p < t {
            (cell.spec_slot() matches Slot::Value(_)) && cell.spec_epoch() as int == p / n
        } else {
            (cell.spec_slot() is Empty) && (cell.spec_epoch() as int) * n + i < t
        }
    }

    /// Well-formedness of the segment.
    pub closed spec fn wf(self) -> bool {
        let n = N as int;
        &&& 1 <= n
        &&& (N as u64) < TICKET_LIMIT
        &&& self.array.len() == N
        &&& self.head <= self.tail
        &&& self.tail as int <= self.head as int + n
        &&& self.tail <= TICKET_LIMIT
        &&& forall|i: int| 0 <= i < n ==> self.cell_ok(i)
    }

    /// The epoch currently stamped on slot `i`.
    pub closed spec fn spec_epoch_at(self, i: int) -> u64 {
        self.array@[i].spec_epoch()
    }

    /// Whether the ticket counters still have room for one more operation.
    pub open spec fn can_enqueue(self) -> bool {
        self.spec_tail() < TICKET_LIMIT
    }

    /// Same bound as for enqueuing: a dequeue also takes a ticket.
    pub open spec fn can_dequeue(self) -> bool {
        self.spec_tail() < TICKET_LIMIT
    }

    /// Whether the segment reports itself closed.
    pub fn is_closed(&self) -> (r: bool)
        ensures
            r == self.spec_closed(),
    {
        self.closed_flag
    }

    /// A well-formed segment never holds more than `N` values.
    pub proof fn lemma_view_len(self)
        requires
            self.wf(),
        ensures
            self@.len() <= N,
            self.spec_head() <= self.spec_tail(),
    {
    }

    /// The address of the successor segment, 0 when none is linked yet.
    pub fn load_next(&self) -> (r: usize)
        ensures
            r == self.next_addr(),
    {
        self.next
    }

    /// Links the successor segment: applies only while no successor exists,
    /// the way the chain's compare-and-swap from null does. Nothing else
    /// about the segment changes.
    pub fn install_next(&mut self, addr: usize)
        requires
            old(self).next_addr() == 0,
            addr != 0,
        ensures
            final(self).next_addr() == addr,
            final(self).wf() == old(self).wf(),
            final(self)@ == old(self)@,
            final(self).spec_head() == old(self).spec_head(),
            final(self).spec_tail() == old(self).spec_tail(),
            final(self).spec_closed() == old(self).spec_closed(),
    {
        self.next = addr;
        proof {
            if old(self).wf() {
                assert forall|i: int| 0 <= i < N as int implies self.cell_ok(i) by {
                    assert(old(self).cell_ok(i));
                }
            }
            if self.wf() {
                assert forall|i: int| 0 <= i < N as int implies old(self).cell_ok(i) by {
                    assert(self.cell_ok(i));
                }
            }
            assert(self@ =~= old(self)@);
        }
    }

    /// An open, empty segment. Both counters start at `N`, so every slot's
    /// initial epoch 0 is strictly behind the first cycle that will claim
    /// it.
    pub fn new() -> (q: Self)
        requires
            1 <= N,
            (N as u64) < TICKET_LIMIT,
        ensures
            q.wf(),
            q@ == Seq::<T>::empty(),
            !q.spec_closed(),
            q.spec_head() == N as u64,
            q.spec_tail() == N as u64,
            q.next_addr() == 0,
    {
        let mut array: Vec<Cell<T>> = Vec::new();
        while array.len() < N
            invariant
                array.len() <= N,
                forall|i: int|
                    0 <= i < array.len() ==> (#[trigger] array@[i]).spec_safe() && array@[i].spec_epoch()
                        == 0 && array@[i].spec_slot() is Empty,
            decreases N - array.len(),
        {
            array.push(Cell::default());
        }
        let q = PRQ {
            closed_flag: false,
            head: N as u64,
            array,
            tail: N as u64,
            next: 0,
        };
        proof {
            let n = N as int;
            assert forall|i: int| 0 <= i < n implies q.cell_ok(i) by {
                lemma_pos_of_props(n, i, n);
            }
            assert(q@ =~= Seq::<T>::empty());
        }
        q
    }

    /// Tries to append `value`: `Ok` publishes it at the tail ticket; `Err`
    /// hands the value back because the segment is (now) closed — it was
    /// already closed, or this ticket found the ring full and closed it.
    /// Nothing else changes on failure.
    pub fn enqueue(&mut self, value: T) -> (r: Result<(), T>)
        requires
            old(self).wf(),
            old(self).can_enqueue(),
        ensures
            final(self).wf(),
            final(self).next_addr() == old(self).next_addr(),
            final(self).spec_head() == old(self).spec_head(),
            old(self).spec_closed() ==> r == Err::<(), T>(value) && *final(self) == *old(self),
            !old(self).spec_closed() && old(self)@.len() == N ==> r == Err::<(), T>(value) && final(self).spec_closed() && final(self)@ == old(self)@ && final(self).spec_tail() == old(self).spec_tail(),
            !old(self).spec_closed() && old(self)@.len() < N ==> r is Ok && !final(self).spec_closed() && final(self)@ == old(self)@.push(value) && final(self).spec_tail()
                == old(self).spec_tail() + 1,
            forall|i: int|
                0 <= i < N as int ==> final(self).spec_epoch_at(i) >= old(self).spec_epoch_at(i),
    {
        if self.closed_flag {
            return Err(value);
        }
        let ticket: u64 = self.tail;
        let n64: u64 = N as u64;
        let cycle: u64 = ticket / n64;
        let index_u64: u64 = ticket % n64;
        let index: usize = index_u64 as usize;
        proof {
            lemma_mod_bound(ticket as int, n64 as int);
            lemma_div_bounds(ticket as int, n64 as int);
        }
        let (safe, epoch) = self.array[index].load_safe_and_epoch();
        // Is the ring full? Then the slot for this ticket still holds the
        // value one whole cycle behind it: close the segment and fail.
        if ticket >= self.head + n64 {
            self.closed_flag = true;
            proof {
                assert forall|i: int| 0 <= i < N as int implies self.cell_ok(i) by {
                    assert(old(self).cell_ok(i));
                }
                assert(self@ =~= old(self)@);
            }
            return Err(value);
        }
        // The slot owned by this ticket is free, its epoch is behind this
        // cycle, and it is safe: the enqueue has not been overtaken.
        proof {
            let h = self.head as int;
            let t = self.tail as int;
            let n = N as int;
            lemma_pos_of_window(h, t, n);
            assert(self.pos_for(index as int) == t);
            assert(self.cell_ok(index as int));
            lemma_epoch_behind(epoch as int, t, n);
            lemma_sae_pack_unpack(self.array@[index as int].safe_and_epoch);
        }
        // Claim the slot with a token, advance the stamp to this cycle,
        // then publish the value in place of the token.
        let token: u64 = Cell::<T>::make_token(0);
        let mut claim: Slot<T> = Slot::Token(token);
        core::mem::swap(&mut self.array[index].value, &mut claim);
        let _ = self.array[index].compare_exchange_safe_and_epoch((safe, epoch), (true, cycle));
        let mut publish: Slot<T> = Slot::Value(value);
        core::mem::swap(&mut self.array[index].value, &mut publish);
        self.tail = ticket + 1;
        proof {
            let h = self.head as int;
            let t = ticket as int;
            let n = N as int;
            lemma_pos_of_window(h, t, n);
            assert(t / n * n + t % n == t);
            assert(t % n == index as int);
            assert forall|i: int| 0 <= i < n implies self.cell_ok(i) by {
                assert(old(self).cell_ok(i));
                lemma_pos_of_props(h, i, n);
                if i != index as int {
                    lemma_pos_of_props(h, index as int, n);
                    assert(self.pos_for(i) != t);
                    assert(self.array@[i] == old(self).array@[i]);
                } else {
                    assert(self.pos_for(i) == t);
                    assert(self.array@[i].spec_safe());
                    assert(self.array@[i].spec_epoch() == cycle);
                    assert(self.array@[i].spec_slot() == Slot::Value(value));
                }
            }
            assert forall|j: int| 0 <= j < old(self)@.len() implies self@[j] == old(self)@[j] by {
                lemma_pos_of_window(h, h + j, n);
                assert((h + j) % n != t % n);
            }
            assert(self@ =~= old(self)@.push(value));
        }
        Ok(())
    }

    /// Takes a dequeue ticket. If the ticket's slot holds a published value
    /// of this cycle, consume it; otherwise the segment is empty — advance
    /// the slot's epoch, repair the tail and report `None`.
    pub fn dequeue(&mut self) -> (r: Option<T>)
        requires
            old(self).wf(),
            old(self).can_dequeue(),
        ensures
            final(self).wf(),
            final(self).next_addr() == old(self).next_addr(),
            final(self).spec_closed() == old(self).spec_closed(),
            old(self)@.len() == 0 ==> r is None && final(self)@ == old(self)@ && final(self).spec_tail() == old(self).spec_tail() + 1,
            old(self)@.len() > 0 ==> r == Some(old(self)@[0]) && final(self)@ == old(self)@.subrange(1, old(self)@.len() as int) && final(self).spec_tail() == old(self).spec_tail(),
            forall|i: int|
                0 <= i < N as int ==> final(self).spec_epoch_at(i) >= old(self).spec_epoch_at(i),
    {
        let ticket: u64 = self.head;
        self.head = ticket + 1;
        let n64: u64 = N as u64;
        let cycle: u64 = ticket / n64;
        let index_u64: u64 = ticket % n64;
        let index: usize = index_u64 as usize;
        proof {
            lemma_mod_bound(ticket as int, n64 as int);
            lemma_div_bounds(ticket as int, n64 as int);
        }
        let (safe, epoch) = self.array[index].load_safe_and_epoch();
        if ticket < self.tail {
            // Dequeue transition: this ticket's slot holds the front value,
            // stamped with exactly this cycle. Consume it.
            proof {
                let h = ticket as int;
                let n = N as int;
                lemma_pos_of_window(h, h, n);
                assert(old(self).pos_for(index as int) == h);
                assert(old(self).cell_ok(index as int));
            }
            let mut taken: Slot<T> = Slot::Empty;
            core::mem::swap(&mut self.array[index].value, &mut taken);
            proof {
                let h = ticket as int;
                let t = self.tail as int;
                let n = N as int;
                lemma_pos_of_window(h, h, n);
                assert(h % n == index as int);
                assert forall|i: int| 0 <= i < n implies self.cell_ok(i) by {
                    assert(old(self).cell_ok(i));
                    lemma_pos_of_props(h + 1, i, n);
                    lemma_pos_of_props(h, i, n);
                    if i == index as int {
                        vstd::arithmetic::div_mod::lemma_mod_add_multiples_vanish(h, n);
                        lemma_pos_of_window(h + 1, h + n, n);
                        assert((h + n) % n == h % n);
                        assert(pos_of(h + 1, i, n) == h + n);
                        assert(self.array@[i].spec_slot() is Empty);
                        assert(self.array@[i].spec_epoch() as int == h / n);
                        assert((self.array@[i].spec_epoch() as int) * n + i == h);
                    } else {
                        let p = pos_of(h, i, n);
                        assert(p != h);
                        lemma_pos_of_window(h + 1, p, n);
                        assert(pos_of(h + 1, i, n) == p);
                        assert(self.array@[i] == old(self).array@[i]);
                    }
                }
                assert forall|j: int| 0 <= j < self@.len() implies self@[j] == old(self)@[j + 1] by {
                    lemma_pos_of_window(h, h + 1 + j, n);
                    assert((h + 1 + j) % n != h % n);
                }
                assert(self@ =~= old(self)@.subrange(1, old(self)@.len() as int));
                assert forall|i: int| 0 <= i < n implies self.spec_epoch_at(i) >= old(
                    self,
                ).spec_epoch_at(i) by {
                    assert(self.array@[i].spec_epoch() == old(self).array@[i].spec_epoch());
                }
            }
            match taken {
                Slot::Value(v) => Some(v),
                _ => {
                    proof {
                        assert(false);
                    }
                    None
                },
            }
        } else {
            // Empty transition: the slot is free. Advance its epoch to this
            // cycle so a late enqueue on an older cycle cannot use it, then
            // clamp the tail up to the head and report emptiness.
            proof {
                let h = ticket as int;
                let n = N as int;
                lemma_pos_of_window(h, h, n);
                assert(old(self).pos_for(index as int) == h);
                assert(old(self).cell_ok(index as int));
                lemma_sae_pack_unpack(self.array@[index as int].safe_and_epoch);
            }
            let _ = self.array[index].compare_exchange_safe_and_epoch((safe, epoch), (safe, cycle));
            self.fix_state();
            proof {
                let h = ticket as int;
                let n = N as int;
                assert(self.tail == ticket + 1);
                lemma_pos_of_window(h, h, n);
                assert(h % n == index as int);
                assert forall|i: int| 0 <= i < n implies self.cell_ok(i) by {
                    assert(old(self).cell_ok(i));
                    lemma_pos_of_props(h + 1, i, n);
                    lemma_pos_of_props(h, i, n);
                    if i == index as int {
                        assert(h / n * n + h % n == h) by {
                            lemma_fundamental_div_mod(h, n);
                            lemma_mul_comm(n, h / n);
                        }
                        assert(self.array@[i].spec_slot() is Empty);
                        assert(self.array@[i].spec_epoch() as int == h / n);
                        assert((self.array@[i].spec_epoch() as int) * n + i == h);
                    } else {
                        assert(self.array@[i] == old(self).array@[i]);
                        assert(pos_of(h, i, n) != h);
                        assert((old(self).array@[i].spec_epoch() as int) * n + i < h);
                    }
                }
                assert(self@ =~= old(self)@);
                assert forall|i: int| 0 <= i < n implies self.spec_epoch_at(i) >= old(
                    self,
                ).spec_epoch_at(i) by {
                    if i == index as int {
                        lemma_epoch_behind(epoch as int, h, n);
                    } else {
                        assert(self.array@[i].spec_epoch() == old(self).array@[i].spec_epoch());
                    }
                }
            }
            None
        }
    }

    /// Repairs the counters after an overshooting dequeue ticket: if the
    /// head has passed the tail, bring the tail forward up to the head.
    fn fix_state(&mut self)
        ensures
            final(self).head == old(self).head,
            final(self).array == old(self).array,
            final(self).closed_flag == old(self).closed_flag,
            final(self).next == old(self).next,
            old(self).head > old(self).tail ==> final(self).tail == old(self).head,
            old(self).head <= old(self).tail ==> final(self).tail == old(self).tail,
    {
        let tail = self.tail;
        let head = self.head;
        if head > tail {
            // The snapshot is current and the head is ahead: clamp the tail
            // up to it.
            self.tail = head;
        }
    }

    /// A fresh open segment already holding `value`: built before being
    /// linked into a chain, so it is never observably empty.
    pub fn new_with_item(value: T) -> (q: Self)
        requires
            1 <= N,
            (N as u64) < TICKET_LIMIT,
        ensures
            q.wf(),
            q@ == Seq::<T>::empty().push(value),
            !q.spec_closed(),
            q.next_addr() == 0,
            q.spec_tail() == N as u64 + 1,
    {
        let mut prq: PRQ<T, N> = PRQ::new();
        let _ = prq.enqueue(value);
        prq
    }
}

} // verus!
