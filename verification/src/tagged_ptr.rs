//! A tagged link kept as a bare word, with static helpers on words.
//!
//! Same packing as [`crate::atomic_tagged`] — tag in the top 16 bits,
//! address in the low 48 — but the location hands out and compares raw
//! words, and the helpers strip, read and bump the tag on a word the
//! caller already holds. Bumping adds one whole tag unit to the word, so
//! the tag wraps from `0xFFFF` to zero while the address bits are kept.
use crate::atomic_tagged::decode_addr;
use crate::atomic_tagged::decode_tag;
use crate::atomic_tagged::encode;
use crate::atomic_tagged::TAG_MASK;
use vstd::prelude::*;

verus! {

/// A mutable location holding one packed (address, tag) word, handled as a
/// bare word.
#[derive(Debug)]
pub struct TaggedPointer {
    ptr: u64,
}

impl Default for TaggedPointer {
    /// The null location: word 0.
    fn default() -> (r: Self)
        ensures
            r.word() == 0,
    {
        TaggedPointer { ptr: 0u64 }
    }
}

impl TaggedPointer {
    /// The packed word currently stored.
    pub closed spec fn word(self) -> u64 {
        self.ptr
    }

    /// A location initially holding `ptr` under tag `tag`.
    pub fn new(ptr: u64, tag: u16) -> (r: TaggedPointer)
        requires
            ptr & TAG_MASK == 0,
        ensures
            r.word() == encode(ptr, tag),
    {
        let shifted_tag: u64 = (tag as u64) << 48;
        let tagged_ptr: u64 = ptr | shifted_tag;
        TaggedPointer { ptr: tagged_ptr }
    }

    /// Whether the stored word is the null word.
    pub fn is_null(&self) -> (r: bool)
        ensures
            r == (self.word() == 0),
    {
        self.load() == 0
    }

    /// Full-word compare-and-swap: replaces the stored word with `new`
    /// exactly when it still equals `current`, address and tag both.
    /// Returns the word found either way.
    pub fn compare_exchange(&mut self, current: u64, new: u64) -> (r: Result<u64, u64>)
        ensures
            old(self).word() == current ==> final(self).word() == new && r == Ok::<u64, u64>(
                current,
            ),
            old(self).word() != current ==> final(self).word() == old(self).word() && r == Err::<
                u64,
                u64,
            >(old(self).word()),
    {
        if self.ptr == current {
            self.ptr = new;
            Ok(current)
        } else {
            Err(self.ptr)
        }
    }

    /// The address half of a word, tag bits stripped.
    pub fn remove_tag(ptr: u64) -> (r: u64)
        ensures
            r == decode_addr(ptr),
    {
        let mask: u64 = 0x0000_FFFF_FFFF_FFFF;
        ptr & mask
    }

    /// The tag half of a word.
    pub fn tag(ptr: u64) -> (r: u16)
        ensures
            r == decode_tag(ptr),
    {
        let shifted: u64 = ptr >> 48;
        let ret: u16 = shifted as u16;
        ret
    }

    /// The word one tag unit later: the address is kept, the tag is
    /// incremented and wraps from `0xFFFF` back to zero.
    pub fn set_tag(old: u64, _tag: u16) -> (r: u64)
        ensures
            decode_addr(r) == decode_addr(old),
            decode_tag(r) as int == (decode_tag(old) + 1) % 0x10000,
    {
        let shifted_one: u64 = 1u64 << 48;
        let r = old.wrapping_add(shifted_one);
        proof {
            assert(1u64 << 48 == 0x1_0000_0000_0000u64) by (bit_vector);
            if old + shifted_one > u64::MAX {
                assert(decode_addr(r) == decode_addr(old) && decode_tag(r) as int == (decode_tag(
                    old,
                ) + 1) % 0x10000) by (bit_vector)
                    requires
                        r == old + 0x1_0000_0000_0000u64 - 0x1_0000_0000_0000_0000,
                ;
            } else {
                assert(decode_addr(r) == decode_addr(old) && decode_tag(r) as int == (decode_tag(
                    old,
                ) + 1) % 0x10000) by (bit_vector)
                    requires
                        r == old + 0x1_0000_0000_0000u64,
                ;
            }
        }
        r
    }

    /// The stored word.
    pub fn load(&self) -> (r: u64)
        ensures
            r == self.word(),
    {
        self.ptr
    }
}

} // verus!
