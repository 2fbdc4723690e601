//! The retirement side of a safe-memory-reclamation port.
//!
//! A queue never frees an unlinked node or segment itself: it hands the
//! address over to the port, which owns it from then on. The port keeps
//! every address it was ever given, in retirement order, and never hands
//! one back, so the queues' invariants can state that no retired address
//! is reachable again — the discipline that hazard-pointer and epoch-based
//! backends enforce at run time.
use vstd::prelude::*;

verus! {

/// Collects the addresses of retired nodes or segments. Ownership of the
/// address transfers here at retirement; the port decides (conceptually)
/// when the storage is finally reused, and until then the address stays
/// recorded.
#[derive(Debug)]
pub struct ReclamationPort {
    retired: Vec<usize>,
}

impl View for ReclamationPort {
    type V = Seq<usize>;

    /// The addresses retired so far, oldest first.
    closed spec fn view(&self) -> Seq<usize> {
        self.retired@
    }
}

impl ReclamationPort {
    /// A port that has been handed nothing yet.
    pub fn new() -> (r: Self)
        ensures
            r@ == Seq::<usize>::empty(),
    {
        let port = ReclamationPort { retired: Vec::new() };
        proof {
            assert(port@ =~= Seq::<usize>::empty());
        }
        port
    }

    /// Schedules `addr` for deallocation once no reader can observe it.
    /// The port records the address; it is the caller's obligation never
    /// to touch it again.
    pub fn retire(&mut self, addr: usize)
        ensures
            final(self)@ == old(self)@.push(addr),
    {
        self.retired.push(addr);
    }

    /// How many addresses have been retired.
    pub fn retired_count(&self) -> (n: usize)
        ensures
            n == self@.len(),
    {
        self.retired.len()
    }
}

/// The reclamation discipline partitions an arena exactly: when the live
/// addresses and the retired addresses are each distinct, never overlap,
/// and together cover every address of an arena of size `arena` (address 0
/// excluded as null), then they account for each allocation once —
/// nothing leaks and nothing is retired twice.
pub proof fn lemma_address_partition(live: Seq<usize>, retired: Seq<usize>, arena: int)
    requires
        1 <= arena <= usize::MAX as int,
        forall|k: int| 0 <= k < live.len() ==> 1 <= #[trigger] live[k] < arena,
        forall|k1: int, k2: int| 0 <= k1 < k2 < live.len() ==> live[k1] != live[k2],
        forall|i: int| 0 <= i < retired.len() ==> 1 <= #[trigger] retired[i] < arena,
        forall|i1: int, i2: int| 0 <= i1 < i2 < retired.len() ==> retired[i1] != retired[i2],
        forall|i: int| 0 <= i < retired.len() ==> !live.contains(#[trigger] retired[i]),
        forall|a: usize| 1 <= a < arena ==> (#[trigger] live.contains(a) || retired.contains(a)),
    ensures
        live.len() + retired.len() == arena - 1,
{
    broadcast use vstd::seq_lib::seq_to_set_is_finite;

    let li: Seq<int> = live.map_values(|a: usize| a as int);
    let ri: Seq<int> = retired.map_values(|a: usize| a as int);
    assert forall|i: int, j: int|
        0 <= i < li.len() && 0 <= j < li.len() && i != j implies li[i] != li[j] by {
        assert(live[i] != live[j]);
    }
    assert forall|i: int, j: int|
        0 <= i < ri.len() && 0 <= j < ri.len() && i != j implies ri[i] != ri[j] by {
        assert(retired[i] != retired[j]);
    }
    li.unique_seq_to_set();
    ri.unique_seq_to_set();
    let ls = li.to_set();
    let rs = ri.to_set();
    assert forall|x: int| !(ls.contains(x) && rs.contains(x)) by {
        if ls.contains(x) && rs.contains(x) {
            let k = choose|k: int| 0 <= k < li.len() && li[k] == x;
            let i = choose|i: int| 0 <= i < ri.len() && ri[i] == x;
            assert(live[k] == retired[i]);
            assert(live.contains(retired[i]));
        }
    }
    assert(ls.disjoint(rs));
    vstd::set_lib::lemma_set_disjoint_lens(ls, rs);
    let range = vstd::set_lib::set_int_range(1, arena);
    assert forall|x: int| #[trigger] range.contains(x) implies (ls + rs).contains(x) by {
        let a = x as usize;
        assert(x <= usize::MAX as int);
        assert(1 <= a < arena);
        if live.contains(a) {
            let k = choose|k: int| 0 <= k < live.len() && live[k] == a;
            assert(li[k] == x);
            assert(ls.contains(x));
        } else {
            assert(retired.contains(a));
            let i = choose|i: int| 0 <= i < retired.len() && retired[i] == a;
            assert(ri[i] == x);
            assert(rs.contains(x));
        }
    }
    assert forall|x: int| #[trigger] (ls + rs).contains(x) implies range.contains(x) by {
        if ls.contains(x) {
            let k = choose|k: int| 0 <= k < li.len() && li[k] == x;
            assert(1 <= live[k] < arena);
        } else {
            let i = choose|i: int| 0 <= i < ri.len() && ri[i] == x;
            assert(1 <= retired[i] < arena);
        }
    }
    assert(ls + rs =~= range);
    vstd::set_lib::lemma_int_range(1, arena);
}

} // verus!
