//! Byte-wise equality of a search byte against a group of tags, producing
//! the lane masks that a vector comparison produces: a lane is all ones when
//! the tag equals the search byte and all zeros otherwise. Lane `i` occupies
//! the `i`-th least significant lane of the result.

use vstd::prelude::*;
use crate::bit_facts::lemma_u64_lanes;

verus! {

/// The lane of a comparison of `value` against `search`.
pub open spec fn eq_lane(value: u8, search: u8) -> u64 {
    if value == search { 0xFF } else { 0 }
}

pub(crate) proof fn lemma_u8x8_lanes(b0: u64, b1: u64, b2: u64, b3: u64, b4: u64, b5: u64, b6: u64, b7: u64, r: u64)
    by (bit_vector)
    requires
        b0 == 0 || b0 == 0xFF, b1 == 0 || b1 == 0xFF, b2 == 0 || b2 == 0xFF, b3 == 0 || b3 == 0xFF,
        b4 == 0 || b4 == 0xFF, b5 == 0 || b5 == 0xFF, b6 == 0 || b6 == 0xFF, b7 == 0 || b7 == 0xFF,
        r == b0 | (b1 << 8u64) | (b2 << 16u64) | (b3 << 24u64) | (b4 << 32u64) | (b5 << 40u64) | (b6 << 48u64) | (b7 << 56u64),
    ensures
        r & 0xFF == b0, (r >> 8u64) & 0xFF == b1, (r >> 16u64) & 0xFF == b2, (r >> 24u64) & 0xFF == b3,
        (r >> 32u64) & 0xFF == b4, (r >> 40u64) & 0xFF == b5, (r >> 48u64) & 0xFF == b6, (r >> 56u64) & 0xFF == b7,
{
}

/// The byte lanes of eight flags: lane `i` (bits `8 * i` to `8 * i + 7`) is
/// `0xFF` when `flags[i]` holds and `0` otherwise.
pub(crate) fn u8x8_lanes_of(flags: [bool; 8]) -> (r: u64)
    ensures
        forall|i: int| 0 <= i < 8 ==> (r >> ((8 * i) as u64)) & 0xFF == (if #[trigger] flags@[i] { 0xFFu64 } else { 0u64 }),
{
    let b0: u64 = if flags[0] { 0xFF } else { 0 };
    let b1: u64 = if flags[1] { 0xFF } else { 0 };
    let b2: u64 = if flags[2] { 0xFF } else { 0 };
    let b3: u64 = if flags[3] { 0xFF } else { 0 };
    let b4: u64 = if flags[4] { 0xFF } else { 0 };
    let b5: u64 = if flags[5] { 0xFF } else { 0 };
    let b6: u64 = if flags[6] { 0xFF } else { 0 };
    let b7: u64 = if flags[7] { 0xFF } else { 0 };
    let r = b0 | (b1 << 8u64) | (b2 << 16u64) | (b3 << 24u64) | (b4 << 32u64) | (b5 << 40u64) | (b6 << 48u64) | (b7 << 56u64);
    proof {
        lemma_u8x8_lanes(b0, b1, b2, b3, b4, b5, b6, b7, r);
        lemma_u64_lanes(r, 0);
        assert forall|i: int| 0 <= i < 8 implies (r >> ((8 * i) as u64)) & 0xFF == (if #[trigger] flags@[i] { 0xFFu64 } else { 0u64 }) by {
            assert(i == 0 || i == 1 || i == 2 || i == 3 || i == 4 || i == 5 || i == 6 || i == 7);
        }
    }
    r
}

/// Compares each of the eight `values` with `search`; lane `i` (bits `8 * i`
/// to `8 * i + 7`) of the result is `0xFF` when they are equal and `0`
/// otherwise.
pub fn u8x8_compare_eq_aarch64(search: u8, values: &[u8; 8]) -> (r: u64)
    ensures
        forall|i: int| 0 <= i < 8 ==> (r >> ((8 * i) as u64)) & 0xFF == eq_lane(#[trigger] values@[i], search),
{
    let b0: u64 = if values[0] == search { 0xFF } else { 0 };
    let b1: u64 = if values[1] == search { 0xFF } else { 0 };
    let b2: u64 = if values[2] == search { 0xFF } else { 0 };
    let b3: u64 = if values[3] == search { 0xFF } else { 0 };
    let b4: u64 = if values[4] == search { 0xFF } else { 0 };
    let b5: u64 = if values[5] == search { 0xFF } else { 0 };
    let b6: u64 = if values[6] == search { 0xFF } else { 0 };
    let b7: u64 = if values[7] == search { 0xFF } else { 0 };
    let r = b0 | (b1 << 8u64) | (b2 << 16u64) | (b3 << 24u64) | (b4 << 32u64) | (b5 << 40u64) | (b6 << 48u64) | (b7 << 56u64);
    proof {
        lemma_u8x8_lanes(b0, b1, b2, b3, b4, b5, b6, b7, r);
        lemma_u64_lanes(r, 0);
        assert forall|i: int| 0 <= i < 8 implies (r >> ((8 * i) as u64)) & 0xFF == eq_lane(#[trigger] values@[i], search) by {
            assert(i == 0 || i == 1 || i == 2 || i == 3 || i == 4 || i == 5 || i == 6 || i == 7);
        }
    }
    r
}


/// The nibble of a narrowed comparison of `value` against `search`.
pub open spec fn eq_nibble(value: u8, search: u8) -> u64 {
    if value == search { 0xF } else { 0 }
}

/// Compares each of the sixteen `values` with `search`; byte `i` of the
/// result is `255` when they are equal and `0` otherwise.
pub fn u8x16_compare_eq_fallback(search: u8, values: &[u8; 16]) -> (r: [u8; 16])
    ensures
        forall|i: int| 0 <= i < 16 ==> #[trigger] r@[i] == (if values@[i] == search { 255u8 } else { 0u8 }),
{
    let mut output = [0u8; 16];
    let mut i: usize = 0;
    while i < 16
        invariant
            i <= 16,
            forall|j: int| 0 <= j < i ==> #[trigger] output@[j] == (if values@[j] == search { 255u8 } else { 0u8 }),
        decreases 16 - i,
    {
        let matched: u8 = if values[i] == search { 1 } else { 0 };
        output[i] = matched * 255;
        i += 1;
    }
    output
}

proof fn lemma_u128_halves(lo: u64, hi: u64, r: u128, k: u64)
    by (bit_vector)
    requires
        r == (lo as u128) | ((hi as u128) << 64u128),
        k <= 56,
    ensures
        (r >> (k as u128)) & 0xFF == ((lo >> k) & 0xFF) as u128,
        (r >> ((k + 64) as u128)) & 0xFF == ((hi >> k) & 0xFF) as u128,
{
}

/// Compares each of the sixteen `values` with `search`; lane `i` (bits
/// `8 * i` to `8 * i + 7`) of the result is `0xFF` when they are equal and `0`
/// otherwise.
pub fn u8x16_compare_eq_aarch64(search: u8, values: &[u8; 16]) -> (r: u128)
    ensures
        forall|i: int| 0 <= i < 16 ==> (r >> ((8 * i) as u128)) & 0xFF == eq_lane(#[trigger] values@[i], search) as u128,
{
    let low_values: [u8; 8] = [values[0], values[1], values[2], values[3], values[4], values[5], values[6], values[7]];
    let high_values: [u8; 8] = [values[8], values[9], values[10], values[11], values[12], values[13], values[14], values[15]];
    let lo = u8x8_compare_eq_aarch64(search, &low_values);
    let hi = u8x8_compare_eq_aarch64(search, &high_values);
    let r = (lo as u128) | ((hi as u128) << 64u128);
    proof {
        assert forall|i: int| 0 <= i < 16 implies (r >> ((8 * i) as u128)) & 0xFF == eq_lane(#[trigger] values@[i], search) as u128 by {
            if i < 8 {
                lemma_u128_halves(lo, hi, r, (8 * i) as u64);
                assert(low_values@[i] == values@[i]);
            } else {
                lemma_u128_halves(lo, hi, r, (8 * (i - 8)) as u64);
                assert(high_values@[i - 8] == values@[i]);
                assert((8 * (i - 8) + 64) == 8 * i);
            }
        }
    }
    r
}

proof fn lemma_nibble_step(r: u64, n: u64, k: u64, m: u64, r2: u64)
    by (bit_vector)
    requires
        k <= 60,
        r >> k == 0,
        n == 0 || n == 0xF,
        r2 == r | (n << k),
    ensures
        m + 4 <= k ==> (r2 >> m) & 0xF == (r >> m) & 0xF,
        (r2 >> k) & 0xF == n,
        k + 4 < 64 ==> r2 >> (k + 4) == 0,
{
}


/// Compares each of the sixteen `values` with `search` and narrows each lane
/// to four bits: nibble `i` (bits `4 * i` to `4 * i + 3`) of the result is
/// `0xF` when they are equal and `0` otherwise.
pub fn u8x16_compare_eq_aarch64_shrink(search: u8, values: &[u8; 16]) -> (r: u64)
    ensures
        forall|i: int| 0 <= i < 16 ==> (r >> ((4 * i) as u64)) & 0xF == eq_nibble(#[trigger] values@[i], search),
{
    let mut r: u64 = 0;
    let mut i: usize = 0;
    proof {
        lemma_u64_lanes(0, 0);
    }
    while i < 16
        invariant
            i <= 16,
            i < 16 ==> r >> ((4 * i) as u64) == 0,
            forall|j: int| 0 <= j < i ==> (r >> ((4 * j) as u64)) & 0xF == eq_nibble(#[trigger] values@[j], search),
        decreases 16 - i,
    {
        let n: u64 = if values[i] == search { 0xF } else { 0 };
        let k: u64 = 4 * i as u64;
        let ghost r0 = r;
        r = r | (n << k);
        proof {
            lemma_nibble_step(r0, n, k, 0, r);
            assert forall|j: int| 0 <= j < i + 1 implies (r >> ((4 * j) as u64)) & 0xF == eq_nibble(#[trigger] values@[j], search) by {
                if j < i {
                    lemma_nibble_step(r0, n, k, (4 * j) as u64, r);
                }
            }
        }
        i += 1;
    }
    r
}

} // verus!
