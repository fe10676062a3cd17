//! Bit masks over the eight tags of a chunk, and iteration over their set
//! positions.
//!
//! Two encodings are used. A "flag" mask keeps one bit per tag at the top of
//! the tag's byte in big-endian order, so position `i` is bit `63 - 8 * i`;
//! it is scanned from the most significant end. A "lane" mask keeps one bit
//! per tag at the bottom of the tag's byte in little-endian order, so
//! position `i` is bit `8 * i`; it is scanned from the least significant end.
//! Either way the positions come out in increasing order.

use vstd::prelude::*;
use crate::bit_facts::{lemma_u64_clear, lemma_u64_scan, lemma_u64_lanes};
use vstd::std_specs::bits::{u64_leading_zeros, u64_trailing_zeros, axiom_u64_leading_zeros, axiom_u64_trailing_zeros};

verus! {

/// The flag of position `i` in a big-endian flag mask.
pub open spec fn be_flag(v: u64, i: int) -> bool {
    ((v >> ((63 - 8 * i) as u64)) & 1) == 1
}

/// A big-endian flag mask that holds no bit other than the position flags.
pub open spec fn only_be_flags(v: u64) -> bool {
    v & 0x7f7f_7f7f_7f7f_7f7f == 0
}

/// The flag of position `i` in a little-endian lane mask.
pub open spec fn lane_flag(v: u64, i: int) -> bool {
    ((v >> ((8 * i) as u64)) & 1) == 1
}

/// A little-endian lane mask that holds no bit other than the position flags.
pub open spec fn only_lane_flags(v: u64) -> bool {
    v & 0xfefe_fefe_fefe_fefe == 0
}

/// The eight bytes read as a big-endian integer.
pub open spec fn be_u64(b: Seq<u8>) -> u64 {
    ((b[0] as u64) << 56u64) | ((b[1] as u64) << 48u64) | ((b[2] as u64) << 40u64)
        | ((b[3] as u64) << 32u64) | ((b[4] as u64) << 24u64) | ((b[5] as u64) << 16u64)
        | ((b[6] as u64) << 8u64) | (b[7] as u64)
}

/// Every byte is a 0 or a 1.
pub open spec fn all_bits(b: Seq<u8>) -> bool {
    forall|i: int| 0 <= i < b.len() ==> #[trigger] b[i] <= 1
}

proof fn lemma_be_flags_of_bytes(b0: u8, b1: u8, b2: u8, b3: u8, b4: u8, b5: u8, b6: u8, b7: u8, v: u64)
    by (bit_vector)
    requires
        v == (((b0 as u64) << 56u64) | ((b1 as u64) << 48u64) | ((b2 as u64) << 40u64)
            | ((b3 as u64) << 32u64) | ((b4 as u64) << 24u64) | ((b5 as u64) << 16u64)
            | ((b6 as u64) << 8u64) | (b7 as u64)) << 7u64,
    ensures
        (((v >> 63u64) & 1) == 1) == (b0 & 1 == 1),
        (((v >> 55u64) & 1) == 1) == (b1 & 1 == 1),
        (((v >> 47u64) & 1) == 1) == (b2 & 1 == 1),
        (((v >> 39u64) & 1) == 1) == (b3 & 1 == 1),
        (((v >> 31u64) & 1) == 1) == (b4 & 1 == 1),
        (((v >> 23u64) & 1) == 1) == (b5 & 1 == 1),
        (((v >> 15u64) & 1) == 1) == (b6 & 1 == 1),
        (((v >> 7u64) & 1) == 1) == (b7 & 1 == 1),
        (b0 <= 1 && b1 <= 1 && b2 <= 1 && b3 <= 1 && b4 <= 1 && b5 <= 1 && b6 <= 1 && b7 <= 1)
            ==> v & 0x7f7f_7f7f_7f7f_7f7f == 0,
{
}

/// A flag at position `i` of a flags-only mask is the bit `63 - lz` found by
/// leading zeros exactly when `lz == 8 * i`.
proof fn lemma_top_bit_is_flag(v: u64, lz: u64)
    requires
        v & 0x7f7f_7f7f_7f7f_7f7f == 0,
        lz < 64,
        (v >> ((63 - lz) as u64)) & 1 != 0,
    ensures
        lz % 8 == 0,
        (v >> ((63 - lz) as u64)) & 1 == 1,
{
    lemma_u64_scan(v, lz, 0);
}

proof fn lemma_no_bits_above(v: u64, lz: u64, j: u64)
    requires
        lz <= 64,
        v >> ((64 - lz) as u64) == 0,
        j < lz,
        j < 64,
    ensures
        (v >> ((63 - j) as u64)) & 1 == 0,
{
    lemma_u64_scan(v, lz, j);
}

pub(crate) proof fn lemma_clear_bit(v: u64, k: u64, j: u64)
    requires
        k < 64,
        j < 64,
    ensures
        ((v & !(1u64 << k)) >> j) & 1 == (if j == k { 0 } else { (v >> j) & 1 }),
        (v & 0x7f7f_7f7f_7f7f_7f7f == 0) ==> (v & !(1u64 << k)) & 0x7f7f_7f7f_7f7f_7f7f == 0,
        (v & 0xfefe_fefe_fefe_fefe == 0) ==> (v & !(1u64 << k)) & 0xfefe_fefe_fefe_fefe == 0,
{
    lemma_u64_clear(v, k, j);
}

pub(crate) proof fn lemma_clear_set_bit_decreases(v: u64, k: u64)
    requires
        k < 64,
        (v >> k) & 1 == 1,
    ensures
        v & !(1u64 << k) < v,
{
    lemma_u64_clear(v, k, 0);
}

pub(crate) proof fn lemma_clear_lowest(v: u64, tz: u64)
    requires
        v != 0,
        tz < 64,
        (v >> tz) & 1 == 1,
        v << ((64 - tz) as u64) == 0,
    ensures
        v & ((v - 1) as u64) == v & !(1u64 << tz),
{
    lemma_u64_scan(v, tz, 0);
}

pub(crate) proof fn lemma_low_bit_is_lane(v: u64, tz: u64)
    requires
        v & 0xfefe_fefe_fefe_fefe == 0,
        tz < 64,
        (v >> tz) & 1 == 1,
    ensures
        tz % 8 == 0,
{
    lemma_u64_scan(v, tz, 0);
}

pub(crate) proof fn lemma_no_bits_below(v: u64, tz: u64, j: u64)
    requires
        tz <= 64,
        v << ((64 - tz) as u64) == 0,
        j < tz,
    ensures
        (v >> j) & 1 == 0,
{
    lemma_u64_scan(v, tz, j);
}

pub(crate) proof fn lemma_lane_mask_keeps_lane(value: u64, k: u64)
    requires
        k < 64,
        k % 8 == 0,
    ensures
        ((value & 0x0101_0101_0101_0101u64) >> k) & 1 == (value >> k) & 1,
{
    lemma_u64_lanes(value, k);
}

/// What every iterator over the set positions of a mask offers.
pub trait IterableBitMaskT: Sized {
    /// The raw mask as a number: each call that finds a position makes it
    /// smaller, and it is 0 once no bit is left.
    spec fn mask_value(&self) -> nat;

    /// How many positions the mask covers.
    spec fn width(&self) -> int;

    /// Whether the mask holds no bit besides the flags of its positions.
    spec fn only_flags(&self) -> bool;

    /// Whether position `i` is flagged.
    spec fn flagged(&self, i: int) -> bool;

    /// Removes the first set position from the mask and returns it: `None`
    /// once no bit is left, leaving the mask as it is. On a mask that holds
    /// only flags, the result is the first flagged position, and exactly that
    /// flag is cleared.
    fn next_set_index(&mut self) -> (r: Option<usize>)
        ensures
            r is None <==> old(self).mask_value() == 0,
            r is None ==> *final(self) == *old(self),
            r is Some ==> final(self).mask_value() < old(self).mask_value(),
            final(self).width() == old(self).width(),
            old(self).only_flags() ==> final(self).only_flags(),
            old(self).only_flags() && r is None ==> forall|j: int| 0 <= j < old(self).width() ==> !#[trigger] old(self).flagged(j),
            old(self).only_flags() && r is Some ==> {
                let i = r->0 as int;
                &&& 0 <= i < old(self).width()
                &&& old(self).flagged(i)
                &&& forall|j: int| 0 <= j < i ==> !#[trigger] old(self).flagged(j)
                &&& forall|j: int| 0 <= j < old(self).width() ==> (#[trigger] final(self).flagged(j) <==> (old(self).flagged(j) && j != i))
            };
}

/// A mask built from eight 0/1 bytes, one per tag position, scanned from the
/// first position to the last.
pub struct IterableBitMask8 {
    value: u64,
}

impl View for IterableBitMask8 {
    type V = u64;

    open spec fn view(&self) -> u64 {
        self.value_spec()
    }
}

impl IterableBitMask8 {
    /// The raw mask: the big-endian bytes shifted left by seven bits.
    pub closed spec fn value_spec(&self) -> u64 {
        self.value
    }

    /// Builds the mask. Each byte should be 0 or 1; the low bit of byte `i`
    /// becomes the flag of position `i`.
    pub fn new(bytes: [u8; 8]) -> (r: Self)
        ensures
            r@ == be_u64(bytes@) << 7u64,
            forall|i: int| 0 <= i < 8 ==> (#[trigger] be_flag(r@, i) <==> bytes@[i] & 1 == 1),
            all_bits(bytes@) ==> only_be_flags(r@),
            all_bits(bytes@) ==> forall|i: int| 0 <= i < 8 ==> (#[trigger] be_flag(r@, i) <==> bytes@[i] == 1),
    {
        let value = ((bytes[0] as u64) << 56u64 | (bytes[1] as u64) << 48u64 | (bytes[2] as u64) << 40u64
            | (bytes[3] as u64) << 32u64 | (bytes[4] as u64) << 24u64 | (bytes[5] as u64) << 16u64
            | (bytes[6] as u64) << 8u64 | (bytes[7] as u64)) << 7u64;
        proof {
            lemma_be_flags_of_bytes(bytes[0], bytes[1], bytes[2], bytes[3], bytes[4], bytes[5], bytes[6], bytes[7], value);
            assert(all_bits(bytes@) ==> bytes@[0] <= 1 && bytes@[1] <= 1 && bytes@[2] <= 1 && bytes@[3] <= 1
                && bytes@[4] <= 1 && bytes@[5] <= 1 && bytes@[6] <= 1 && bytes@[7] <= 1);
            assert forall|i: int| 0 <= i < 8 implies (#[trigger] be_flag(value, i) <==> bytes@[i] & 1 == 1) by {
                assert(i == 0 || i == 1 || i == 2 || i == 3 || i == 4 || i == 5 || i == 6 || i == 7);
            }
            assert forall|i: int| 0 <= i < 8 && all_bits(bytes@) implies (#[trigger] be_flag(value, i) <==> bytes@[i] == 1) by {
                let b = bytes@[i];
                assert(b <= 1);
                crate::bit_facts::lemma_u128_lanes(0, 0, b);
            }
        }
        Self { value }
    }

    /// Removes the first flagged position and returns it, or returns `None`
    /// once the mask is empty.
    pub fn next_set_index(&mut self) -> (r: Option<usize>)
        ensures
            r is None <==> old(self)@ == 0,
            r is None ==> final(self)@ == old(self)@,
            r is Some ==> final(self)@ < old(self)@,
            r matches Some(i) ==> {
                let lz = u64_leading_zeros(old(self)@);
                &&& i == lz / 8
                &&& final(self)@ == old(self)@ & !(1u64 << ((63 - lz) as u64))
            },
            only_be_flags(old(self)@) ==> only_be_flags(final(self)@),
            only_be_flags(old(self)@) && r is Some ==> {
                let i = r->0 as int;
                &&& 0 <= i < 8
                &&& be_flag(old(self)@, i)
                &&& forall|j: int| 0 <= j < i ==> !#[trigger] be_flag(old(self)@, j)
                &&& forall|j: int| 0 <= j < 8 ==> (#[trigger] be_flag(final(self)@, j) <==> (be_flag(old(self)@, j) && j != i))
            },
    {
        if self.value == 0 {
            return None;
        }
        let leading_zeros = self.value.leading_zeros();
        let ghost old_value = self.value;
        proof {
            axiom_u64_leading_zeros(old_value);
        }
        let index = leading_zeros / 8;
        self.value = self.value & !(1u64 << (63 - leading_zeros));
        proof {
            let lz = leading_zeros as u64;
            let k = (63 - lz) as u64;
            assert(self.value == old_value & !(1u64 << k));
            lemma_u64_lanes(old_value, k);
            lemma_clear_set_bit_decreases(old_value, k);
            if only_be_flags(old_value) {
                lemma_top_bit_is_flag(old_value, lz);
                lemma_clear_bit(old_value, k, 0);
                assert(8 * (index as int) == lz as int);
                assert(be_flag(old_value, index as int));
                assert forall|j: int| 0 <= j < index implies !#[trigger] be_flag(old_value, j) by {
                    lemma_no_bits_above(old_value, lz, (8 * j) as u64);
                }
                assert forall|j: int| 0 <= j < 8 implies (#[trigger] be_flag(self.value, j) <==> (be_flag(old_value, j) && j != index)) by {
                    lemma_clear_bit(old_value, k, (63 - 8 * j) as u64);
                }
            } else {
                lemma_clear_bit(old_value, k, 0);
            }
        }
        Some(index as usize)
    }
}

impl IterableBitMaskT for IterableBitMask8 {
    open spec fn mask_value(&self) -> nat {
        self@ as nat
    }

    open spec fn width(&self) -> int {
        8
    }

    open spec fn only_flags(&self) -> bool {
        only_be_flags(self@)
    }

    open spec fn flagged(&self, i: int) -> bool {
        be_flag(self@, i)
    }

    fn next_set_index(&mut self) -> (r: Option<usize>) {
        let r = IterableBitMask8::next_set_index(self);
        proof {
            if r is None {
                assert forall|j: int| 0 <= j < 8 implies !#[trigger] be_flag(self@, j) by {
                    lemma_u64_lanes(0, (63 - 8 * j) as u64);
                }
            }
        }
        r
    }
}

/// A mask whose lanes are whole bytes of all ones or all zeros, as a vector
/// comparison produces them; only the lowest bit of each byte is kept.
pub struct IterableBitMaskIntrinsics8 {
    value: u64,
}

impl View for IterableBitMaskIntrinsics8 {
    type V = u64;

    open spec fn view(&self) -> u64 {
        self.value_spec()
    }
}

impl IterableBitMaskIntrinsics8 {
    /// The kept lane bits.
    pub closed spec fn value_spec(&self) -> u64 {
        self.value
    }

    /// Keeps the lowest bit of each byte of `value`.
    pub fn new(value: u64) -> (r: Self)
        ensures
            r@ == value & 0x0101_0101_0101_0101u64,
            only_lane_flags(r@),
            forall|i: int| 0 <= i < 8 ==> (#[trigger] lane_flag(r@, i) <==> (value >> ((8 * i) as u64)) & 1 == 1),
    {
        let v = value & 0x0101_0101_0101_0101u64;
        proof { lemma_u64_lanes(value, 0); }
        assert forall|i: int| 0 <= i < 8 implies (#[trigger] lane_flag(v, i) <==> (value >> ((8 * i) as u64)) & 1 == 1) by {
            lemma_lane_mask_keeps_lane(value, (8 * i) as u64);
        }
        Self { value: v }
    }

    /// Removes the lowest set lane and returns its position.
    pub fn next_set_index(&mut self) -> (r: Option<usize>)
        requires
            only_lane_flags(old(self)@),
        ensures
            r is None <==> old(self)@ == 0,
            r is None ==> final(self)@ == old(self)@,
            r is Some ==> final(self)@ < old(self)@,
            only_lane_flags(final(self)@),
            r is Some ==> {
                let i = r->0 as int;
                &&& 0 <= i < 8
                &&& i == u64_trailing_zeros(old(self)@) / 8
                &&& lane_flag(old(self)@, i)
                &&& forall|j: int| 0 <= j < i ==> !#[trigger] lane_flag(old(self)@, j)
                &&& forall|j: int| 0 <= j < 8 ==> (#[trigger] lane_flag(final(self)@, j) <==> (lane_flag(old(self)@, j) && j != i))
            },
    {
        if self.value == 0 {
            return None;
        }
        let zeros = self.value.trailing_zeros();
        let ghost old_value = self.value;
        proof {
            axiom_u64_trailing_zeros(old_value);
            lemma_clear_lowest(old_value, zeros as u64);
        }
        self.value = self.value & (self.value - 1);
        let index = zeros / 8;
        proof {
            let tz = zeros as u64;
            lemma_clear_set_bit_decreases(old_value, tz);
            lemma_low_bit_is_lane(old_value, tz);
            lemma_clear_bit(old_value, tz, 0);
            assert(8 * (index as int) == tz as int);
            assert(lane_flag(old_value, index as int));
            assert forall|j: int| 0 <= j < index implies !#[trigger] lane_flag(old_value, j) by {
                lemma_no_bits_below(old_value, tz, (8 * j) as u64);
            }
            assert forall|j: int| 0 <= j < 8 implies (#[trigger] lane_flag(self.value, j) <==> (lane_flag(old_value, j) && j != index)) by {
                lemma_clear_bit(old_value, tz, (8 * j) as u64);
            }
        }
        Some(index as usize)
    }
}

} // verus!
