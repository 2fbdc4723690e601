//! An address and a 16-bit generation tag packed into one machine word.
//!
//! The tag occupies the top 16 bits of the word, the address the low 48.
//! A compare-and-swap on the packed word succeeds only if both the address
//! and the tag still match, so a slot that was freed and reused with the
//! same address but a bumped tag cannot be mistaken for the original
//! reference.
use vstd::prelude::*;

verus! {

/// The top 16 bits of a word: the generation tag.
pub const TAG_MASK: u64 = 0xFFFF_0000_0000_0000;

/// The low 48 bits of a word: the address.
pub const ADDR_MASK: u64 = 0x0000_FFFF_FFFF_FFFF;

/// Bit position where the tag field starts.
pub const TAG_SHIFT: u64 = 48;

/// The packed word that carries address `addr` and tag `tag`.
pub open spec fn encode(addr: u64, tag: u16) -> u64 {
    addr | ((tag as u64) << TAG_SHIFT)
}

/// The address half of a packed word.
pub open spec fn decode_addr(word: u64) -> u64 {
    word & ADDR_MASK
}

/// The tag half of a packed word.
pub open spec fn decode_tag(word: u64) -> u16 {
    (word >> TAG_SHIFT) as u16
}

/// Round trip of the packing: decoding an encoded word gives back exactly
/// the address and the tag that went in, for every address that fits in the
/// low 48 bits and every tag in `[0, 0xFFFF]`.
pub proof fn lemma_tagged_round_trip(addr: u64, tag: u16)
    requires
        addr & TAG_MASK == 0,
    ensures
        decode_addr(encode(addr, tag)) == addr,
        decode_tag(encode(addr, tag)) == tag,
{
    assert(decode_addr(encode(addr, tag)) == addr) by (bit_vector)
        requires
            addr & 0xFFFF_0000_0000_0000u64 == 0,
    ;
    assert(decode_tag(encode(addr, tag)) == tag) by (bit_vector)
        requires
            addr & 0xFFFF_0000_0000_0000u64 == 0,
    ;
}

/// A masked address keeps no tag bits.
pub proof fn lemma_decoded_addr_fits(word: u64)
    ensures
        decode_addr(word) & TAG_MASK == 0,
        decode_addr(word) <= ADDR_MASK,
{
    assert((word & 0x0000_FFFF_FFFF_FFFFu64) & 0xFFFF_0000_0000_0000u64 == 0) by (bit_vector);
    assert(word & 0x0000_FFFF_FFFF_FFFFu64 <= 0x0000_FFFF_FFFF_FFFFu64) by (bit_vector);
}

/// An address below the tag field has no tag bits set.
pub proof fn lemma_small_addr_fits(addr: u64)
    requires
        addr <= ADDR_MASK,
    ensures
        addr & TAG_MASK == 0,
        decode_addr(addr) == addr,
{
    assert(addr & 0xFFFF_0000_0000_0000u64 == 0 && addr & 0x0000_FFFF_FFFF_FFFFu64 == addr)
        by (bit_vector)
        requires
            addr <= 0x0000_FFFF_FFFF_FFFFu64,
    ;
}

/// A snapshot of one packed word: an address plus its generation tag.
#[derive(Clone, Copy, PartialEq, Eq, Structural, Debug)]
pub struct TaggedPointer {
    data: u64,
}

impl TaggedPointer {
    /// The raw packed word.
    pub closed spec fn word(self) -> u64 {
        self.data
    }

    /// The address half of the snapshot.
    pub open spec fn addr(self) -> u64 {
        decode_addr(self.word())
    }

    /// The tag half of the snapshot.
    pub open spec fn tag_spec(self) -> u16 {
        decode_tag(self.word())
    }

    /// Packs `in_addr` and `tag` into one word.
    pub fn new(in_addr: u64, tag: u16) -> (r: Self)
        requires
            in_addr & TAG_MASK == 0,
        ensures
            r.word() == encode(in_addr, tag),
            r.addr() == in_addr,
            r.tag_spec() == tag,
    {
        let shifted_tag: u64 = (tag as u64) << 48;
        let tagged: u64 = in_addr | shifted_tag;
        proof {
            lemma_tagged_round_trip(in_addr, tag);
        }
        TaggedPointer { data: tagged }
    }

    /// The address, with the tag bits stripped.
    pub fn ptr(&self) -> (r: u64)
        ensures
            r == self.addr(),
    {
        self.data & ADDR_MASK
    }

    /// The generation tag.
    pub fn tag(&self) -> (r: u16)
        ensures
            r == self.tag_spec(),
    {
        let t: u64 = self.data >> 48;
        t as u16
    }

    /// The same address under a new tag.
    pub fn with_tag(&self, tag: u16) -> (r: Self)
        ensures
            r.addr() == self.addr(),
            r.tag_spec() == tag,
    {
        proof {
            lemma_decoded_addr_fits(self.word());
        }
        Self::new(self.ptr(), tag)
    }
}

/// A mutable location holding one packed (address, tag) word. Every update
/// goes through a full-word compare-and-swap: both halves must match, or
/// the exchange fails and reports what it found.
#[derive(Debug)]
pub struct AtomicTagged {
    data: u64,
}

impl Default for AtomicTagged {
    /// The null location: address 0, tag 0.
    fn default() -> (r: Self)
        ensures
            r.word() == 0,
    {
        AtomicTagged { data: 0u64 }
    }
}

impl AtomicTagged {
    /// The packed word currently stored.
    pub closed spec fn word(self) -> u64 {
        self.data
    }

    /// The address half of the stored word.
    pub open spec fn addr(self) -> u64 {
        decode_addr(self.word())
    }

    /// The tag half of the stored word.
    pub open spec fn tag_spec(self) -> u16 {
        decode_tag(self.word())
    }

    /// A location initially holding `in_addr` under tag `tag`.
    pub fn new(in_addr: u64, tag: u16) -> (r: Self)
        requires
            in_addr & TAG_MASK == 0,
        ensures
            r.word() == encode(in_addr, tag),
            r.addr() == in_addr,
            r.tag_spec() == tag,
    {
        let tagged = TaggedPointer::new(in_addr, tag);
        AtomicTagged { data: tagged.data }
    }

    /// A snapshot of the stored word.
    pub fn load(&self) -> (r: TaggedPointer)
        ensures
            r.word() == self.word(),
    {
        TaggedPointer { data: self.data }
    }

    /// Full-word compare-and-swap: replaces the stored word with `new`'s
    /// exactly when it still equals `current`'s, address and tag both.
    /// Returns the word found either way.
    pub fn compare_exchange(&mut self, current: &TaggedPointer, new: &TaggedPointer) -> (r: Result<
        TaggedPointer,
        TaggedPointer,
    >)
        ensures
            old(self).word() == current.word() ==> final(self).word() == new.word() && (
            r matches Ok(p) && p.word() == old(self).word()),
            old(self).word() != current.word() ==> final(self).word() == old(self).word() && (
            r matches Err(c) && c.word() == old(self).word()),
    {
        if self.data == current.data {
            let previous = TaggedPointer { data: self.data };
            self.data = new.data;
            Ok(previous)
        } else {
            Err(TaggedPointer { data: self.data })
        }
    }
}

} // verus!
