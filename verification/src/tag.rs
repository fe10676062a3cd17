//! The control tag of a SwissTable-style slot: `0` marks an empty slot, `1` a
//! deleted one, and any larger value a full slot, holding the top byte of its
//! hash.

use vstd::prelude::*;

verus! {

broadcast use vstd::layout::layout_of_primitives;

/// The tag value of an empty slot.
pub const TAG_EMPTY: u8 = 0b0000_0000;

/// The tag value of a deleted slot.
pub const TAG_DELETED: u8 = 0b0000_0001;

/// A single control tag.
#[derive(Clone, Copy, PartialEq, Eq, Structural)]
pub struct Tag(pub u8);

/// The number of hash bytes that a tag can be taken from: those of a `u64`,
/// or fewer where `usize` is narrower.
pub open spec fn min_hash_len() -> int {
    if vstd::layout::size_of::<usize>() < 8 {
        vstd::layout::size_of::<usize>() as int
    } else {
        8
    }
}

/// The tag of a full slot holding `hash`: the top byte of its first
/// `min_hash_len()` bytes, raised to at least 2 so that it is never special.
pub open spec fn full_tag(hash: u64) -> u8 {
    let top = (hash >> ((min_hash_len() * 8 - 8) as u64)) as u8;
    if top > 2 { top } else { 2 }
}

impl Tag {
    /// Whether the tag marks a full slot.
    pub fn is_full(self) -> (r: bool)
        ensures
            r == (self.0 > TAG_DELETED),
    {
        self.0 > TAG_DELETED
    }

    /// Whether the tag is one of the special values, empty or deleted.
    pub fn is_special(self) -> (r: bool)
        ensures
            r == (self.0 <= TAG_DELETED),
    {
        self.0 <= TAG_DELETED
    }

    /// For a special tag, whether it marks an empty slot: only its low bit is
    /// looked at.
    pub fn special_is_empty(self) -> (r: bool)
        requires
            self.0 <= TAG_DELETED,
        ensures
            r == (self.0 == TAG_EMPTY),
    {
        let value = self.0;
        proof {
            crate::bit_facts::lemma_u128_lanes(0, 0, value);
        }
        value & 0x01 == 0
    }

    /// The tag of a full slot that holds `hash`.
    pub fn full(hash: u64) -> (r: Tag)
        ensures
            r.0 == full_tag(hash),
            r.0 > TAG_DELETED,
    {
        let min_hash_len: usize = if core::mem::size_of::<usize>() < core::mem::size_of::<u64>() {
            core::mem::size_of::<usize>()
        } else {
            core::mem::size_of::<u64>()
        };
        proof {
            assert(vstd::layout::size_of::<usize>() * 8 == usize::BITS);
            assert(usize::BITS == 32 || usize::BITS == 64);
        }
        let shift = (min_hash_len * 8 - 8) as u64;
        let top7 = hash >> shift;
        let truncated = top7 as u8;
        Tag(if truncated > TAG_DELETED + 1 { truncated } else { TAG_DELETED + 1 })
    }
}

} // verus!
