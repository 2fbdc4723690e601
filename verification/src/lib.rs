//! Lock-free MPMC FIFO queues, verified.
//!
//! The crate models the shared-memory structures of a family of lock-free
//! queues over a preallocated arena: every link between nodes or segments is
//! a plain index paired with a generation tag, compared atomically as one
//! word, so the ABA-defeating contract of a tagged pointer is kept while the
//! code stays free of raw pointers. The modules are, leaf first:
//!
//! * [`atomic_tagged`] — an address plus a 16-bit generation tag packed into
//!   one word, with a full-word compare-and-swap.
//! * [`tagged_ptr`] — the same packing kept as a bare word, with helpers
//!   that strip, read and bump the tag.
//! * [`reclamation`] — the retirement side of a safe-memory-reclamation
//!   port: a drained node or segment is handed over, never reused.
//! * [`ms_queue`] — an unbounded linked-list FIFO queue with a sentinel
//!   node (Michael–Scott style).
//! * [`prq`] — a bounded ring segment whose slots carry a (safe, epoch)
//!   stamp, closing once full.
//! * [`lprq`] — an unbounded queue chaining ring segments, opening a new
//!   segment when the tail segment closes.
//! * [`shared_queue`] — the common queue interface.
pub mod atomic_tagged;
pub mod tagged_ptr;
pub mod reclamation;
pub mod shared_queue;
pub mod ms_queue;
pub mod prq;
pub mod lprq;


