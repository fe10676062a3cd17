//! Bit masks over tag groups of sixteen, eight and four tags, and iteration
//! over their set positions, lowest position first.
//!
//! A comparison of a group of tags leaves one lane per tag. The masks keep
//! one bit per lane: bit `8 * i` for byte lanes and bit `4 * i` for the
//! nibble lanes of a narrowed sixteen-tag comparison. The big-endian mask
//! [`IterableBitMask`] keeps bit `127 - 8 * i` instead and is scanned from
//! the most significant end.

use vstd::prelude::*;
use crate::bit_facts::{lemma_u64_clear, lemma_u64_scan, lemma_u64_lanes, lemma_u32_bits, lemma_u128_scan, lemma_u128_lanes};
use vstd::std_specs::bits::{u64_trailing_zeros, axiom_u64_trailing_zeros, u32_trailing_zeros, axiom_u32_trailing_zeros};
use crate::bit_mask_8::{lane_flag, only_lane_flags, lemma_clear_bit, lemma_clear_set_bit_decreases, lemma_clear_lowest,
    lemma_low_bit_is_lane, lemma_no_bits_below, lemma_lane_mask_keeps_lane, IterableBitMaskT};

verus! {

/// The number of leading zeros of a 128-bit integer, as `u128::leading_zeros`
/// documents it: the highest set bit is bit `127 - r`, and nothing above it
/// is set; all 128 bits are zero exactly when the value is zero.
pub assume_specification[ u128::leading_zeros ](x: u128) -> (r: u32)
    ensures
        r <= 128,
        (x == 0) == (r == 128),
        r < 128 ==> (x >> ((127 - r) as u128)) & 1 == 1,
        x >> ((128 - r) as u128) == 0,
;

/// The number of trailing zeros of a 128-bit integer, as
/// `u128::trailing_zeros` documents it: the lowest set bit is bit `r`, and
/// nothing below it is set; all 128 bits are zero exactly when the value is
/// zero.
pub assume_specification[ u128::trailing_zeros ](x: u128) -> (r: u32)
    ensures
        r <= 128,
        (x == 0) == (r == 128),
        r < 128 ==> (x >> (r as u128)) & 1 == 1,
        x << ((128 - r) as u128) == 0,
;

/// The flag of position `i` in a big-endian 128-bit flag mask.
pub open spec fn be_flag128(v: u128, i: int) -> bool {
    ((v >> ((127 - 8 * i) as u128)) & 1) == 1
}

/// A big-endian 128-bit flag mask with no bit besides the position flags.
pub open spec fn only_be_flags128(v: u128) -> bool {
    v & 0x7f7f_7f7f_7f7f_7f7f_7f7f_7f7f_7f7f_7f7fu128 == 0
}

/// The flag of lane `i` in a 128-bit byte-lane mask.
pub open spec fn lane_flag128(v: u128, i: int) -> bool {
    ((v >> ((8 * i) as u128)) & 1) == 1
}

/// A 128-bit byte-lane mask with no bit besides the lane flags.
pub open spec fn only_lane_flags128(v: u128) -> bool {
    v & 0xfefe_fefe_fefe_fefe_fefe_fefe_fefe_fefeu128 == 0
}

/// The flag of nibble lane `i` in a 64-bit nibble-lane mask.
pub open spec fn nibble_flag(v: u64, i: int) -> bool {
    ((v >> ((4 * i) as u64)) & 1) == 1
}

/// A nibble-lane mask with no bit besides the lane flags.
pub open spec fn only_nibble_flags(v: u64) -> bool {
    v & 0xEEEE_EEEE_EEEE_EEEEu64 == 0
}

/// The flag of lane `i` in a 32-bit byte-lane mask.
pub open spec fn lane_flag32(v: u32, i: int) -> bool {
    ((v >> ((8 * i) as u32)) & 1) == 1
}

/// A 32-bit byte-lane mask with no bit besides the lane flags.
pub open spec fn only_lane_flags32(v: u32) -> bool {
    v & 0xfefe_fefeu32 == 0
}

/// The sixteen bytes read as a big-endian integer.
pub open spec fn be_u128(b: Seq<u8>) -> u128 {
    ((b[0] as u128) << 120u128) | ((b[1] as u128) << 112u128) | ((b[2] as u128) << 104u128)
        | ((b[3] as u128) << 96u128) | ((b[4] as u128) << 88u128) | ((b[5] as u128) << 80u128)
        | ((b[6] as u128) << 72u128) | ((b[7] as u128) << 64u128) | ((b[8] as u128) << 56u128)
        | ((b[9] as u128) << 48u128) | ((b[10] as u128) << 40u128) | ((b[11] as u128) << 32u128)
        | ((b[12] as u128) << 24u128) | ((b[13] as u128) << 16u128) | ((b[14] as u128) << 8u128)
        | (b[15] as u128)
}

proof fn lemma_be128_flag(v: u128, b: u128, k: u128)
    by (bit_vector)
    requires
        k < 16,
        b < 256,
        (v >> ((8 * (15 - k)) as u128)) & 0xff == b,
    ensures
        ((v << 7u128) >> ((127 - 8 * k) as u128)) & 1 == b & 1,
{
}

proof fn lemma_be128_byte(
    b0: u128, b1: u128, b2: u128, b3: u128, b4: u128, b5: u128, b6: u128, b7: u128,
    b8: u128, b9: u128, b10: u128, b11: u128, b12: u128, b13: u128, b14: u128, b15: u128, v: u128,
)
    by (bit_vector)
    requires
        b0 < 256, b1 < 256, b2 < 256, b3 < 256, b4 < 256, b5 < 256, b6 < 256, b7 < 256,
        b8 < 256, b9 < 256, b10 < 256, b11 < 256, b12 < 256, b13 < 256, b14 < 256, b15 < 256,
        v == (b0 << 120u128) | (b1 << 112u128) | (b2 << 104u128) | (b3 << 96u128) | (b4 << 88u128)
            | (b5 << 80u128) | (b6 << 72u128) | (b7 << 64u128) | (b8 << 56u128) | (b9 << 48u128)
            | (b10 << 40u128) | (b11 << 32u128) | (b12 << 24u128) | (b13 << 16u128) | (b14 << 8u128) | b15,
    ensures
        (v >> 120u128) & 0xff == b0, (v >> 112u128) & 0xff == b1, (v >> 104u128) & 0xff == b2,
        (v >> 96u128) & 0xff == b3, (v >> 88u128) & 0xff == b4, (v >> 80u128) & 0xff == b5,
        (v >> 72u128) & 0xff == b6, (v >> 64u128) & 0xff == b7, (v >> 56u128) & 0xff == b8,
        (v >> 48u128) & 0xff == b9, (v >> 40u128) & 0xff == b10, (v >> 32u128) & 0xff == b11,
        (v >> 24u128) & 0xff == b12, (v >> 16u128) & 0xff == b13, (v >> 8u128) & 0xff == b14,
        v & 0xff == b15,
        (b0 <= 1 && b1 <= 1 && b2 <= 1 && b3 <= 1 && b4 <= 1 && b5 <= 1 && b6 <= 1 && b7 <= 1
            && b8 <= 1 && b9 <= 1 && b10 <= 1 && b11 <= 1 && b12 <= 1 && b13 <= 1 && b14 <= 1 && b15 <= 1)
            ==> (v << 7u128) & 0x7f7f_7f7f_7f7f_7f7f_7f7f_7f7f_7f7f_7f7fu128 == 0,
{
}

proof fn lemma_top_bit_is_flag128(v: u128, lz: u128)
    requires
        v & 0x7f7f_7f7f_7f7f_7f7f_7f7f_7f7f_7f7f_7f7fu128 == 0,
        lz < 128,
        (v >> ((127 - lz) as u128)) & 1 == 1,
    ensures
        lz % 8 == 0,
{
    lemma_u128_scan(v, lz, 0);
}

proof fn lemma_no_bits_above128(v: u128, lz: u128, j: u128)
    requires
        lz <= 128,
        v >> ((128 - lz) as u128) == 0,
        j < lz,
    ensures
        (v >> ((127 - j) as u128)) & 1 == 0,
{
    lemma_u128_scan(v, lz, j);
}

proof fn lemma_clear_bit128(v: u128, k: u128, j: u128)
    by (bit_vector)
    requires
        k < 128,
        j < 128,
    ensures
        ((v & !(1u128 << k)) >> j) & 1 == (if j == k { 0 } else { (v >> j) & 1 }),
        (v & 0x7f7f_7f7f_7f7f_7f7f_7f7f_7f7f_7f7f_7f7fu128 == 0)
            ==> (v & !(1u128 << k)) & 0x7f7f_7f7f_7f7f_7f7f_7f7f_7f7f_7f7f_7f7fu128 == 0,
        (v & 0xfefe_fefe_fefe_fefe_fefe_fefe_fefe_fefeu128 == 0)
            ==> (v & !(1u128 << k)) & 0xfefe_fefe_fefe_fefe_fefe_fefe_fefe_fefeu128 == 0,
        (v >> k) & 1 == 1 ==> v & !(1u128 << k) < v,
{
}

proof fn lemma_clear_lowest128(v: u128, tz: u128)
    requires
        v != 0,
        tz < 128,
        (v >> tz) & 1 == 1,
        v << ((128 - tz) as u128) == 0,
    ensures
        v & ((v - 1) as u128) == v & !(1u128 << tz),
{
    lemma_u128_scan(v, tz, 0);
}

proof fn lemma_low_bit_is_lane128(v: u128, tz: u128, j: u128)
    requires
        v & 0xfefe_fefe_fefe_fefe_fefe_fefe_fefe_fefeu128 == 0,
        tz < 128,
        (v >> tz) & 1 == 1,
        v << ((128 - tz) as u128) == 0,
    ensures
        tz % 8 == 0,
        j < tz ==> (v >> j) & 1 == 0,
{
    lemma_u128_scan(v, tz, j);
}

proof fn lemma_lane_mask_keeps_lane128(value: u128, k: u128)
    requires
        k < 128,
        k % 8 == 0,
    ensures
        ((value & 0x0101_0101_0101_0101_0101_0101_0101_0101u128) >> k) & 1 == (value >> k) & 1,
        (value & 0x0101_0101_0101_0101_0101_0101_0101_0101u128) & 0xfefe_fefe_fefe_fefe_fefe_fefe_fefe_fefeu128 == 0,
{
    lemma_u128_lanes(value, k, 0);
}

proof fn lemma_low_bit_is_nibble(v: u64, tz: u64)
    requires
        v & 0xEEEE_EEEE_EEEE_EEEEu64 == 0,
        tz < 64,
        (v >> tz) & 1 == 1,
    ensures
        tz % 4 == 0,
{
    lemma_u64_scan(v, tz, 0);
}

proof fn lemma_clear_bit_nibbles(v: u64, k: u64)
    requires
        k < 64,
    ensures
        (v & 0xEEEE_EEEE_EEEE_EEEEu64 == 0) ==> (v & !(1u64 << k)) & 0xEEEE_EEEE_EEEE_EEEEu64 == 0,
{
    lemma_u64_clear(v, k, 0);
}

proof fn lemma_nibble_mask(value: u64, k: u64)
    requires
        k < 64,
        k % 4 == 0,
    ensures
        ((value & 0x1111_1111_1111_1111u64) >> k) & 1 == (value >> k) & 1,
        (value & 0x1111_1111_1111_1111u64) & 0xEEEE_EEEE_EEEE_EEEEu64 == 0,
{
    lemma_u64_lanes(value, k);
}

proof fn lemma_clear_bit32(v: u32, k: u32, j: u32)
    requires
        k < 32,
        j < 32,
    ensures
        ((v & !(1u32 << k)) >> j) & 1 == (if j == k { 0 } else { (v >> j) & 1 }),
        (v & 0xfefe_fefeu32 == 0) ==> (v & !(1u32 << k)) & 0xfefe_fefeu32 == 0,
        (v >> k) & 1 == 1 ==> v & !(1u32 << k) < v,
{
    lemma_u32_bits(v, k, j);
}

proof fn lemma_clear_lowest32(v: u32, tz: u32)
    requires
        v != 0,
        tz < 32,
        (v >> tz) & 1 == 1,
        v << ((32 - tz) as u32) == 0,
    ensures
        v & ((v - 1) as u32) == v & !(1u32 << tz),
{
    lemma_u32_bits(v, tz, 0);
}

proof fn lemma_low_bit_is_lane32(v: u32, tz: u32, j: u32)
    requires
        v & 0xfefe_fefeu32 == 0,
        tz < 32,
        (v >> tz) & 1 == 1,
        v << ((32 - tz) as u32) == 0,
    ensures
        tz % 8 == 0,
        j < tz ==> (v >> j) & 1 == 0,
{
    lemma_u32_bits(v, tz, j);
}

proof fn lemma_lane_mask_keeps_lane32(value: u32, k: u32)
    requires
        k < 32,
        k % 8 == 0,
    ensures
        ((value & 0x0101_0101u32) >> k) & 1 == (value >> k) & 1,
        (value & 0x0101_0101u32) & 0xfefe_fefeu32 == 0,
{
    lemma_u32_bits(value, k, 0);
}

/// Clears the lowest set bit of a nonzero value; returns the new value and
/// the position of the bit it cleared.
fn pop_lowest_u64(value: u64) -> (r: (u64, u32))
    requires
        value != 0,
    ensures
        r.1 < 64,
        r.1 == u64_trailing_zeros(value),
        (value >> (r.1 as u64)) & 1 == 1,
        value << ((64 - r.1) as u64) == 0,
        r.0 == value & !(1u64 << (r.1 as u64)),
        r.0 < value,
{
    let zeros = value.trailing_zeros();
    proof {
        axiom_u64_trailing_zeros(value);
        lemma_clear_lowest(value, zeros as u64);
        lemma_clear_set_bit_decreases(value, zeros as u64);
    }
    (value & (value - 1), zeros)
}

/// Clears the lowest set bit of a nonzero value; returns the new value and
/// the position of the bit it cleared.
fn pop_lowest_u32(value: u32) -> (r: (u32, u32))
    requires
        value != 0,
    ensures
        r.1 < 32,
        r.1 == u32_trailing_zeros(value),
        (value >> r.1) & 1 == 1,
        value << ((32 - r.1) as u32) == 0,
        r.0 == value & !(1u32 << r.1),
        r.0 < value,
{
    let zeros = value.trailing_zeros();
    proof {
        axiom_u32_trailing_zeros(value);
        lemma_clear_lowest32(value, zeros);
        lemma_clear_bit32(value, zeros, 0);
    }
    (value & (value - 1), zeros)
}

/// The byte-lane step shared by the 64-bit lane masks: removing the lowest
/// set bit of a lanes-only mask removes its lowest lane.
proof fn lemma_lane_step(old_value: u64, new_value: u64, tz: u64)
    requires
        only_lane_flags(old_value),
        tz < 64,
        (old_value >> tz) & 1 == 1,
        old_value << ((64 - tz) as u64) == 0,
        new_value == old_value & !(1u64 << tz),
    ensures
        tz % 8 == 0,
        only_lane_flags(new_value),
        lane_flag(old_value, (tz / 8) as int),
        forall|j: int| 0 <= j < tz / 8 ==> !#[trigger] lane_flag(old_value, j),
        forall|j: int| 0 <= j < 8 ==> (#[trigger] lane_flag(new_value, j) <==> (lane_flag(old_value, j) && j != tz / 8)),
{
    lemma_low_bit_is_lane(old_value, tz);
    lemma_clear_bit(old_value, tz, 0);
    assert(8 * (tz / 8) == tz);
    assert forall|j: int| 0 <= j < tz / 8 implies !#[trigger] lane_flag(old_value, j) by {
        lemma_no_bits_below(old_value, tz, (8 * j) as u64);
    }
    assert forall|j: int| 0 <= j < 8 implies (#[trigger] lane_flag(new_value, j) <==> (lane_flag(old_value, j) && j != tz / 8)) by {
        lemma_clear_bit(old_value, tz, (8 * j) as u64);
    }
}

/// A mask built from sixteen 0/1 bytes, one per tag position, scanned from
/// the first position to the last.
pub struct IterableBitMask {
    value: u128,
}

impl View for IterableBitMask {
    type V = u128;

    closed spec fn view(&self) -> u128 {
        self.value
    }
}

impl IterableBitMask {
    /// Builds the mask. Each byte should be 0 or 1; the low bit of byte `i`
    /// becomes the flag of position `i`.
    pub fn new(bytes: [u8; 16]) -> (r: Self)
        ensures
            r@ == be_u128(bytes@) << 7u128,
            forall|i: int| 0 <= i < 16 ==> (#[trigger] be_flag128(r@, i) <==> bytes@[i] & 1 == 1),
            (forall|i: int| 0 <= i < 16 ==> #[trigger] bytes@[i] <= 1) ==> only_be_flags128(r@),
    {
        let raw = (bytes[0] as u128) << 120u128 | (bytes[1] as u128) << 112u128 | (bytes[2] as u128) << 104u128
            | (bytes[3] as u128) << 96u128 | (bytes[4] as u128) << 88u128 | (bytes[5] as u128) << 80u128
            | (bytes[6] as u128) << 72u128 | (bytes[7] as u128) << 64u128 | (bytes[8] as u128) << 56u128
            | (bytes[9] as u128) << 48u128 | (bytes[10] as u128) << 40u128 | (bytes[11] as u128) << 32u128
            | (bytes[12] as u128) << 24u128 | (bytes[13] as u128) << 16u128 | (bytes[14] as u128) << 8u128
            | (bytes[15] as u128);
        let value = raw << 7u128;
        proof {
            let b = bytes@;
            lemma_be128_byte(b[0] as u128, b[1] as u128, b[2] as u128, b[3] as u128, b[4] as u128, b[5] as u128,
                b[6] as u128, b[7] as u128, b[8] as u128, b[9] as u128, b[10] as u128, b[11] as u128,
                b[12] as u128, b[13] as u128, b[14] as u128, b[15] as u128, raw);
            lemma_u128_lanes(raw, 0, 0);
            assert forall|i: int| 0 <= i < 16 implies (#[trigger] be_flag128(value, i) <==> bytes@[i] & 1 == 1) by {
                let k = i as u128;
                let bi = b[i] as u128;
                assert((raw >> (8 * (15 - k))) & 0xff == bi) by {
                    assert(i == 0 || i == 1 || i == 2 || i == 3 || i == 4 || i == 5 || i == 6 || i == 7 || i == 8
                        || i == 9 || i == 10 || i == 11 || i == 12 || i == 13 || i == 14 || i == 15);
                }
                lemma_be128_flag(raw, bi, k);
                let bb = b[i];
                lemma_u128_lanes(raw, 0, bb);
            }
            if forall|i: int| 0 <= i < 16 ==> #[trigger] bytes@[i] <= 1 {
                assert(b[0] <= 1 && b[1] <= 1 && b[2] <= 1 && b[3] <= 1 && b[4] <= 1 && b[5] <= 1 && b[6] <= 1 && b[7] <= 1
                    && b[8] <= 1 && b[9] <= 1 && b[10] <= 1 && b[11] <= 1 && b[12] <= 1 && b[13] <= 1 && b[14] <= 1 && b[15] <= 1);
            }
        }
        Self { value }
    }

    /// Removes the first flagged position and returns it, or returns `None`
    /// once the mask is empty.
    pub fn next_set_index(&mut self) -> (r: Option<usize>)
        ensures
            r is None <==> old(self)@ == 0,
            r is None ==> final(self)@ == old(self)@,
            r is Some ==> final(self)@ < old(self)@,
            only_be_flags128(old(self)@) ==> only_be_flags128(final(self)@),
            only_be_flags128(old(self)@) && r is Some ==> {
                let i = r->0 as int;
                &&& 0 <= i < 16
                &&& be_flag128(old(self)@, i)
                &&& forall|j: int| 0 <= j < i ==> !#[trigger] be_flag128(old(self)@, j)
                &&& forall|j: int| 0 <= j < 16 ==> (#[trigger] be_flag128(final(self)@, j) <==> (be_flag128(old(self)@, j) && j != i))
            },
    {
        if self.value == 0 {
            return None;
        }
        let leading_zeros = self.value.leading_zeros();
        let ghost old_value = self.value;
        let index = leading_zeros / 8;
        self.value = self.value & !(1u128 << (127 - leading_zeros));
        proof {
            let lz = leading_zeros as u128;
            let k = (127 - lz) as u128;
            assert(self.value == old_value & !(1u128 << k));
            lemma_clear_bit128(old_value, k, 0);
            if only_be_flags128(old_value) {
                lemma_top_bit_is_flag128(old_value, lz);
                assert(8 * (index as int) == lz as int);
                assert(be_flag128(old_value, index as int));
                assert forall|j: int| 0 <= j < index implies !#[trigger] be_flag128(old_value, j) by {
                    lemma_no_bits_above128(old_value, lz, (8 * j) as u128);
                }
                assert forall|j: int| 0 <= j < 16 implies (#[trigger] be_flag128(self.value, j) <==> (be_flag128(old_value, j) && j != index)) by {
                    lemma_clear_bit128(old_value, k, (127 - 8 * j) as u128);
                }
            }
        }
        Some(index as usize)
    }
}

impl IterableBitMaskT for IterableBitMask {
    open spec fn mask_value(&self) -> nat {
        self@ as nat
    }

    open spec fn width(&self) -> int {
        16
    }

    open spec fn only_flags(&self) -> bool {
        only_be_flags128(self@)
    }

    open spec fn flagged(&self, i: int) -> bool {
        be_flag128(self@, i)
    }

    fn next_set_index(&mut self) -> (r: Option<usize>) {
        let r = IterableBitMask::next_set_index(self);
        proof {
            if r is None {
                assert forall|j: int| 0 <= j < 16 implies !#[trigger] be_flag128(self@, j) by {
                    lemma_u128_lanes(0, (127 - 8 * j) as u128, 0);
                }
            }
        }
        r
    }
}

/// A mask over sixteen byte lanes, as a 128-bit vector comparison produces
/// it; only the lowest bit of each byte is kept.
pub struct IterableBitMaskIntrinsics {
    value: u128,
}

impl View for IterableBitMaskIntrinsics {
    type V = u128;

    closed spec fn view(&self) -> u128 {
        self.value
    }
}

impl IterableBitMaskIntrinsics {
    /// Keeps the lowest bit of each byte of `value`.
    pub fn new(value: u128) -> (r: Self)
        ensures
            r@ == value & 0x0101_0101_0101_0101_0101_0101_0101_0101u128,
            only_lane_flags128(r@),
            forall|i: int| 0 <= i < 16 ==> (#[trigger] lane_flag128(r@, i) <==> (value >> ((8 * i) as u128)) & 1 == 1),
    {
        let v = value & 0x0101_0101_0101_0101_0101_0101_0101_0101u128;
        proof {
            lemma_lane_mask_keeps_lane128(value, 0);
            assert forall|i: int| 0 <= i < 16 implies (#[trigger] lane_flag128(v, i) <==> (value >> ((8 * i) as u128)) & 1 == 1) by {
                lemma_lane_mask_keeps_lane128(value, (8 * i) as u128);
            }
        }
        Self { value: v }
    }

    /// Removes the lowest set lane and returns its position.
    pub fn next_set_index(&mut self) -> (r: Option<usize>)
        ensures
            r is None <==> old(self)@ == 0,
            r is None ==> final(self)@ == old(self)@,
            r is Some ==> final(self)@ < old(self)@,
            only_lane_flags128(old(self)@) ==> only_lane_flags128(final(self)@),
            only_lane_flags128(old(self)@) && r is Some ==> {
                let i = r->0 as int;
                &&& 0 <= i < 16
                &&& lane_flag128(old(self)@, i)
                &&& forall|j: int| 0 <= j < i ==> !#[trigger] lane_flag128(old(self)@, j)
                &&& forall|j: int| 0 <= j < 16 ==> (#[trigger] lane_flag128(final(self)@, j) <==> (lane_flag128(old(self)@, j) && j != i))
            },
    {
        if self.value == 0 {
            return None;
        }
        let zeros = self.value.trailing_zeros();
        let ghost old_value = self.value;
        proof {
            lemma_clear_lowest128(old_value, zeros as u128);
        }
        self.value = self.value & (self.value - 1);
        let index = zeros / 8;
        proof {
            let tz = zeros as u128;
            lemma_clear_bit128(old_value, tz, 0);
            if only_lane_flags128(old_value) {
                lemma_low_bit_is_lane128(old_value, tz, 0);
                assert(8 * (index as int) == tz as int);
                assert forall|j: int| 0 <= j < index implies !#[trigger] lane_flag128(old_value, j) by {
                    lemma_low_bit_is_lane128(old_value, tz, (8 * j) as u128);
                }
                assert forall|j: int| 0 <= j < 16 implies (#[trigger] lane_flag128(self.value, j) <==> (lane_flag128(old_value, j) && j != index)) by {
                    lemma_clear_bit128(old_value, tz, (8 * j) as u128);
                }
            }
        }
        Some(index as usize)
    }
}

impl IterableBitMaskT for IterableBitMaskIntrinsics {
    open spec fn mask_value(&self) -> nat {
        self@ as nat
    }

    open spec fn width(&self) -> int {
        16
    }

    open spec fn only_flags(&self) -> bool {
        only_lane_flags128(self@)
    }

    open spec fn flagged(&self, i: int) -> bool {
        lane_flag128(self@, i)
    }

    fn next_set_index(&mut self) -> (r: Option<usize>) {
        let r = IterableBitMaskIntrinsics::next_set_index(self);
        proof {
            if r is None {
                assert forall|j: int| 0 <= j < 16 implies !#[trigger] lane_flag128(self@, j) by {
                    lemma_u128_lanes(0, (8 * j) as u128, 0);
                }
            }
        }
        r
    }
}


/// The nibble-lane step: removing the lowest set bit of a nibble-lanes-only
/// mask removes its lowest lane.
proof fn lemma_nibble_step(old_value: u64, new_value: u64, tz: u64)
    requires
        only_nibble_flags(old_value),
        tz < 64,
        (old_value >> tz) & 1 == 1,
        old_value << ((64 - tz) as u64) == 0,
        new_value == old_value & !(1u64 << tz),
    ensures
        tz % 4 == 0,
        only_nibble_flags(new_value),
        nibble_flag(old_value, (tz / 4) as int),
        forall|j: int| 0 <= j < tz / 4 ==> !#[trigger] nibble_flag(old_value, j),
        forall|j: int| 0 <= j < 16 ==> (#[trigger] nibble_flag(new_value, j) <==> (nibble_flag(old_value, j) && j != tz / 4)),
{
    lemma_low_bit_is_nibble(old_value, tz);
    lemma_clear_bit_nibbles(old_value, tz);
    assert(4 * (tz / 4) == tz);
    assert forall|j: int| 0 <= j < tz / 4 implies !#[trigger] nibble_flag(old_value, j) by {
        lemma_no_bits_below(old_value, tz, (4 * j) as u64);
    }
    assert forall|j: int| 0 <= j < 16 implies (#[trigger] nibble_flag(new_value, j) <==> (nibble_flag(old_value, j) && j != tz / 4)) by {
        lemma_clear_bit(old_value, tz, (4 * j) as u64);
    }
}

/// The 32-bit byte-lane step.
proof fn lemma_lane32_step(old_value: u32, new_value: u32, tz: u32)
    requires
        only_lane_flags32(old_value),
        tz < 32,
        (old_value >> tz) & 1 == 1,
        old_value << ((32 - tz) as u32) == 0,
        new_value == old_value & !(1u32 << tz),
    ensures
        tz % 8 == 0,
        only_lane_flags32(new_value),
        lane_flag32(old_value, (tz / 8) as int),
        forall|j: int| 0 <= j < tz / 8 ==> !#[trigger] lane_flag32(old_value, j),
        forall|j: int| 0 <= j < 4 ==> (#[trigger] lane_flag32(new_value, j) <==> (lane_flag32(old_value, j) && j != tz / 8)),
{
    lemma_low_bit_is_lane32(old_value, tz, 0);
    lemma_clear_bit32(old_value, tz, 0);
    assert(8 * (tz / 8) == tz);
    assert forall|j: int| 0 <= j < tz / 8 implies !#[trigger] lane_flag32(old_value, j) by {
        lemma_low_bit_is_lane32(old_value, tz, (8 * j) as u32);
    }
    assert forall|j: int| 0 <= j < 4 implies (#[trigger] lane_flag32(new_value, j) <==> (lane_flag32(old_value, j) && j != tz / 8)) by {
        lemma_clear_bit32(old_value, tz, (8 * j) as u32);
    }
}

/// A mask over the sixteen nibble lanes of a narrowed sixteen-tag
/// comparison; only the lowest bit of each nibble is kept.
#[derive(Clone, Copy)]
pub struct IterableBitMaskIntrinsics16x4 {
    value: u64,
}

impl View for IterableBitMaskIntrinsics16x4 {
    type V = u64;

    closed spec fn view(&self) -> u64 {
        self.value
    }
}

impl IterableBitMaskIntrinsics16x4 {
    /// Keeps the lowest bit of each nibble of `value`.
    pub fn new(value: u64) -> (r: Self)
        ensures
            r@ == value & 0x1111_1111_1111_1111u64,
            only_nibble_flags(r@),
            forall|i: int| 0 <= i < 16 ==> (#[trigger] nibble_flag(r@, i) <==> (value >> ((4 * i) as u64)) & 1 == 1),
    {
        let v = value & 0x1111_1111_1111_1111u64;
        proof {
            lemma_nibble_mask(value, 0);
            assert forall|i: int| 0 <= i < 16 implies (#[trigger] nibble_flag(v, i) <==> (value >> ((4 * i) as u64)) & 1 == 1) by {
                lemma_nibble_mask(value, (4 * i) as u64);
            }
        }
        Self { value: v }
    }

    /// Removes the lowest set lane and returns its position.
    pub fn next_set_index(&mut self) -> (r: Option<usize>)
        ensures
            r is None <==> old(self)@ == 0,
            r is None ==> final(self)@ == old(self)@,
            r is Some ==> final(self)@ < old(self)@,
            only_nibble_flags(old(self)@) ==> only_nibble_flags(final(self)@),
            only_nibble_flags(old(self)@) && r is Some ==> {
                let i = r->0 as int;
                &&& 0 <= i < 16
                &&& nibble_flag(old(self)@, i)
                &&& forall|j: int| 0 <= j < i ==> !#[trigger] nibble_flag(old(self)@, j)
                &&& forall|j: int| 0 <= j < 16 ==> (#[trigger] nibble_flag(final(self)@, j) <==> (nibble_flag(old(self)@, j) && j != i))
            },
    {
        if self.value == 0 {
            return None;
        }
        let ghost old_value = self.value;
        let (rest, zeros) = pop_lowest_u64(self.value);
        self.value = rest;
        proof {
            lemma_clear_bit_nibbles(old_value, zeros as u64);
            if only_nibble_flags(old_value) {
                lemma_nibble_step(old_value, rest, zeros as u64);
            }
        }
        Some((zeros / 4) as usize)
    }

    /// Whether any lane is set.
    pub fn any_bit_set(&self) -> (r: bool)
        ensures
            r == (self@ != 0),
            only_nibble_flags(self@) ==> (r <==> exists|i: int| 0 <= i < 16 && #[trigger] nibble_flag(self@, i)),
    {
        proof {
            let v = self.value;
            if only_nibble_flags(v) && v != 0 {
                axiom_u64_trailing_zeros(v);
                let tz = u64_trailing_zeros(v) as u64;
                lemma_low_bit_is_nibble(v, tz);
                assert(nibble_flag(v, (tz / 4) as int));
            }
            if exists|i: int| 0 <= i < 16 && #[trigger] nibble_flag(v, i) {
                let i = choose|i: int| 0 <= i < 16 && #[trigger] nibble_flag(v, i);
                let k = (4 * i) as u64;
                lemma_u64_lanes(v, k);
            }
        }
        self.value != 0
    }

    /// An iterator over the set lanes, lowest first.
    pub fn into_iter(self) -> (r: IterableBitMaskIntrinsics16x4Iterator)
        ensures
            r@ == self@,
    {
        IterableBitMaskIntrinsics16x4Iterator { value: self.value }
    }
}

impl IterableBitMaskT for IterableBitMaskIntrinsics16x4 {
    open spec fn mask_value(&self) -> nat {
        self@ as nat
    }

    open spec fn width(&self) -> int {
        16
    }

    open spec fn only_flags(&self) -> bool {
        only_nibble_flags(self@)
    }

    open spec fn flagged(&self, i: int) -> bool {
        nibble_flag(self@, i)
    }

    fn next_set_index(&mut self) -> (r: Option<usize>) {
        let r = IterableBitMaskIntrinsics16x4::next_set_index(self);
        proof {
            if r is None {
                assert forall|j: int| 0 <= j < 16 implies !#[trigger] nibble_flag(self@, j) by {
                    lemma_u64_lanes(0, (4 * j) as u64);
                }
            }
        }
        r
    }
}

/// Iterates over the set lanes of a [`IterableBitMaskIntrinsics16x4`].
pub struct IterableBitMaskIntrinsics16x4Iterator {
    value: u64,
}

impl View for IterableBitMaskIntrinsics16x4Iterator {
    type V = u64;

    closed spec fn view(&self) -> u64 {
        self.value
    }
}

impl IterableBitMaskIntrinsics16x4Iterator {
    /// Returns the lowest remaining lane and removes it.
    pub fn next(&mut self) -> (r: Option<usize>)
        ensures
            r is None <==> old(self)@ == 0,
            r is None ==> final(self)@ == old(self)@,
            r is Some ==> final(self)@ < old(self)@,
            only_nibble_flags(old(self)@) ==> only_nibble_flags(final(self)@),
            only_nibble_flags(old(self)@) && r is Some ==> {
                let i = r->0 as int;
                &&& 0 <= i < 16
                &&& nibble_flag(old(self)@, i)
                &&& forall|j: int| 0 <= j < i ==> !#[trigger] nibble_flag(old(self)@, j)
                &&& forall|j: int| 0 <= j < 16 ==> (#[trigger] nibble_flag(final(self)@, j) <==> (nibble_flag(old(self)@, j) && j != i))
            },
    {
        if self.value == 0 {
            return None;
        }
        let ghost old_value = self.value;
        let (rest, zeros) = pop_lowest_u64(self.value);
        self.value = rest;
        proof {
            lemma_clear_bit_nibbles(old_value, zeros as u64);
            if only_nibble_flags(old_value) {
                lemma_nibble_step(old_value, rest, zeros as u64);
            }
        }
        Some((zeros / 4) as usize)
    }
}

/// A mask over eight byte lanes, as a 64-bit vector comparison produces it.
#[derive(Clone, Copy)]
pub struct IterableBitMaskIntrinsics8x8 {
    value: u64,
}

impl View for IterableBitMaskIntrinsics8x8 {
    type V = u64;

    closed spec fn view(&self) -> u64 {
        self.value
    }
}

impl IterableBitMaskIntrinsics8x8 {
    /// Keeps the lowest bit of each byte of `value`.
    pub fn new(value: u64) -> (r: Self)
        ensures
            r@ == value & 0x0101_0101_0101_0101u64,
            only_lane_flags(r@),
            forall|i: int| 0 <= i < 8 ==> (#[trigger] lane_flag(r@, i) <==> (value >> ((8 * i) as u64)) & 1 == 1),
    {
        let v = value & 0x0101_0101_0101_0101u64;
        proof {
            lemma_u64_lanes(value, 0);
            assert forall|i: int| 0 <= i < 8 implies (#[trigger] lane_flag(v, i) <==> (value >> ((8 * i) as u64)) & 1 == 1) by {
                lemma_lane_mask_keeps_lane(value, (8 * i) as u64);
            }
        }
        Self { value: v }
    }

    /// A mask that keeps `value` as it is: each byte should already be 0 or 1.
    pub fn new_unchecked(value: u64) -> (r: Self)
        ensures
            r@ == value,
    {
        Self { value }
    }

    /// Removes the lowest set bit and returns the lane it lies in.
    pub fn next_set_index(&mut self) -> (r: Option<usize>)
        ensures
            r is None <==> old(self)@ == 0,
            r is None ==> final(self)@ == old(self)@,
            r is Some ==> final(self)@ < old(self)@ && r->0 < 8 && r->0 == u64_trailing_zeros(old(self)@) / 8,
            only_lane_flags(old(self)@) ==> only_lane_flags(final(self)@),
            only_lane_flags(old(self)@) && r is Some ==> {
                let i = r->0 as int;
                &&& lane_flag(old(self)@, i)
                &&& forall|j: int| 0 <= j < i ==> !#[trigger] lane_flag(old(self)@, j)
                &&& forall|j: int| 0 <= j < 8 ==> (#[trigger] lane_flag(final(self)@, j) <==> (lane_flag(old(self)@, j) && j != i))
            },
    {
        if self.value == 0 {
            return None;
        }
        let ghost old_value = self.value;
        let (rest, zeros) = pop_lowest_u64(self.value);
        self.value = rest;
        proof {
            lemma_clear_bit(old_value, zeros as u64, 0);
            if only_lane_flags(old_value) {
                lemma_lane_step(old_value, rest, zeros as u64);
            }
        }
        Some((zeros / 8) as usize)
    }

    /// Whether any bit is set.
    pub fn any_bit_set(&self) -> (r: bool)
        ensures
            r == (self@ != 0),
            only_lane_flags(self@) ==> (r <==> exists|i: int| 0 <= i < 8 && #[trigger] lane_flag(self@, i)),
    {
        proof {
            let v = self.value;
            if only_lane_flags(v) && v != 0 {
                axiom_u64_trailing_zeros(v);
                let tz = u64_trailing_zeros(v) as u64;
                lemma_low_bit_is_lane(v, tz);
                assert(lane_flag(v, (tz / 8) as int));
            }
            if exists|i: int| 0 <= i < 8 && #[trigger] lane_flag(v, i) {
                let i = choose|i: int| 0 <= i < 8 && #[trigger] lane_flag(v, i);
                let k = (8 * i) as u64;
                lemma_u64_lanes(v, k);
            }
        }
        self.value != 0
    }

    /// An iterator over the set lanes, lowest first.
    pub fn into_iter(self) -> (r: IterableBitMaskIntrinsics8x8Iterator)
        ensures
            r@ == self@,
    {
        IterableBitMaskIntrinsics8x8Iterator { value: self.value }
    }
}

impl IterableBitMaskT for IterableBitMaskIntrinsics8x8 {
    open spec fn mask_value(&self) -> nat {
        self@ as nat
    }

    open spec fn width(&self) -> int {
        8
    }

    open spec fn only_flags(&self) -> bool {
        only_lane_flags(self@)
    }

    open spec fn flagged(&self, i: int) -> bool {
        lane_flag(self@, i)
    }

    fn next_set_index(&mut self) -> (r: Option<usize>) {
        let r = IterableBitMaskIntrinsics8x8::next_set_index(self);
        proof {
            if r is None {
                assert forall|j: int| 0 <= j < 8 implies !#[trigger] lane_flag(self@, j) by {
                    lemma_u64_lanes(0, (8 * j) as u64);
                }
            }
        }
        r
    }
}

/// Iterates over the set lanes of a [`IterableBitMaskIntrinsics8x8`].
pub struct IterableBitMaskIntrinsics8x8Iterator {
    value: u64,
}

impl View for IterableBitMaskIntrinsics8x8Iterator {
    type V = u64;

    closed spec fn view(&self) -> u64 {
        self.value
    }
}

impl IterableBitMaskIntrinsics8x8Iterator {
    /// Returns the lane of the lowest remaining bit and removes the bit.
    pub fn next(&mut self) -> (r: Option<usize>)
        ensures
            r is None <==> old(self)@ == 0,
            r is None ==> final(self)@ == old(self)@,
            r is Some ==> final(self)@ < old(self)@ && r->0 < 8 && r->0 == u64_trailing_zeros(old(self)@) / 8,
            only_lane_flags(old(self)@) ==> only_lane_flags(final(self)@),
            only_lane_flags(old(self)@) && r is Some ==> {
                let i = r->0 as int;
                &&& lane_flag(old(self)@, i)
                &&& forall|j: int| 0 <= j < i ==> !#[trigger] lane_flag(old(self)@, j)
                &&& forall|j: int| 0 <= j < 8 ==> (#[trigger] lane_flag(final(self)@, j) <==> (lane_flag(old(self)@, j) && j != i))
            },
    {
        if self.value == 0 {
            return None;
        }
        let ghost old_value = self.value;
        let (rest, zeros) = pop_lowest_u64(self.value);
        self.value = rest;
        proof {
            lemma_clear_bit(old_value, zeros as u64, 0);
            if only_lane_flags(old_value) {
                lemma_lane_step(old_value, rest, zeros as u64);
            }
        }
        Some((zeros / 8) as usize)
    }
}

/// A mask over four byte lanes.
#[derive(Clone, Copy)]
pub struct IterableBitMaskIntrinsics8x4 {
    value: u32,
}

impl View for IterableBitMaskIntrinsics8x4 {
    type V = u32;

    closed spec fn view(&self) -> u32 {
        self.value
    }
}

impl IterableBitMaskIntrinsics8x4 {
    /// Keeps the lowest bit of each byte of `value`.
    pub fn new(value: u32) -> (r: Self)
        ensures
            r@ == value & 0x0101_0101u32,
            only_lane_flags32(r@),
            forall|i: int| 0 <= i < 4 ==> (#[trigger] lane_flag32(r@, i) <==> (value >> ((8 * i) as u32)) & 1 == 1),
    {
        let v = value & 0x0101_0101u32;
        proof {
            lemma_lane_mask_keeps_lane32(value, 0);
            assert forall|i: int| 0 <= i < 4 implies (#[trigger] lane_flag32(v, i) <==> (value >> ((8 * i) as u32)) & 1 == 1) by {
                lemma_lane_mask_keeps_lane32(value, (8 * i) as u32);
            }
        }
        Self { value: v }
    }

    /// A mask that keeps `value` as it is: each byte should already be 0 or 1.
    pub fn new_unchecked(value: u32) -> (r: Self)
        ensures
            r@ == value,
    {
        Self { value }
    }

    /// Whether any bit is set.
    pub fn any_bit_set(&self) -> (r: bool)
        ensures
            r == (self@ != 0),
            only_lane_flags32(self@) ==> (r <==> exists|i: int| 0 <= i < 4 && #[trigger] lane_flag32(self@, i)),
    {
        proof {
            let v = self.value;
            if only_lane_flags32(v) && v != 0 {
                axiom_u32_trailing_zeros(v);
                let tz = u32_trailing_zeros(v);
                lemma_low_bit_is_lane32(v, tz, 0);
                assert(lane_flag32(v, (tz / 8) as int));
            }
            if exists|i: int| 0 <= i < 4 && #[trigger] lane_flag32(v, i) {
                let i = choose|i: int| 0 <= i < 4 && #[trigger] lane_flag32(v, i);
                let k = (8 * i) as u32;
                lemma_u32_bits(v, k, 0);
            }
        }
        self.value != 0
    }

    /// An iterator over the set lanes, lowest first.
    pub fn into_iter(self) -> (r: IterableBitMaskIntrinsics8x4Iterator)
        ensures
            r@ == self@,
    {
        IterableBitMaskIntrinsics8x4Iterator { value: self.value }
    }
}

/// Iterates over the set lanes of a [`IterableBitMaskIntrinsics8x4`].
pub struct IterableBitMaskIntrinsics8x4Iterator {
    value: u32,
}

impl View for IterableBitMaskIntrinsics8x4Iterator {
    type V = u32;

    closed spec fn view(&self) -> u32 {
        self.value
    }
}

impl IterableBitMaskIntrinsics8x4Iterator {
    /// Returns the lane of the lowest remaining bit and removes the bit.
    pub fn next(&mut self) -> (r: Option<usize>)
        ensures
            r is None <==> old(self)@ == 0,
            r is None ==> final(self)@ == old(self)@,
            r is Some ==> final(self)@ < old(self)@ && r->0 < 4 && r->0 == u32_trailing_zeros(old(self)@) / 8,
            only_lane_flags32(old(self)@) ==> only_lane_flags32(final(self)@),
            only_lane_flags32(old(self)@) && r is Some ==> {
                let i = r->0 as int;
                &&& lane_flag32(old(self)@, i)
                &&& forall|j: int| 0 <= j < i ==> !#[trigger] lane_flag32(old(self)@, j)
                &&& forall|j: int| 0 <= j < 4 ==> (#[trigger] lane_flag32(final(self)@, j) <==> (lane_flag32(old(self)@, j) && j != i))
            },
    {
        if self.value == 0 {
            return None;
        }
        let ghost old_value = self.value;
        let (rest, zeros) = pop_lowest_u32(self.value);
        self.value = rest;
        proof {
            lemma_clear_bit32(old_value, zeros, 0);
            if only_lane_flags32(old_value) {
                lemma_lane32_step(old_value, rest, zeros);
            }
        }
        Some((zeros / 8) as usize)
    }
}

} // verus!
