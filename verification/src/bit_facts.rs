//! Facts about bit operations on fixed-width integers that the masks, tags
//! and tables rely on. Each lemma gathers the facts of one shape and is
//! proved by bit blasting; the facts hold under the conditions written
//! before each `==>`.

use vstd::prelude::*;

verus! {

/// Clearing bit `k` of a 64-bit value: what happens to bit `j`, to the
/// position masks a flags-only value satisfies, and to the value itself.
pub(crate) proof fn lemma_u64_clear(v: u64, k: u64, j: u64)
    by (bit_vector)
    ensures
        (k < 64 && j < 64) ==> ((v & !(1u64 << k)) >> j) & 1 == (if j == k { 0 } else { (v >> j) & 1 }),
        (k < 64 && v & 0x7f7f_7f7f_7f7f_7f7f == 0) ==> (v & !(1u64 << k)) & 0x7f7f_7f7f_7f7f_7f7f == 0,
        (k < 64 && v & 0xfefe_fefe_fefe_fefe == 0) ==> (v & !(1u64 << k)) & 0xfefe_fefe_fefe_fefe == 0,
        (k < 64 && v & 0xEEEE_EEEE_EEEE_EEEEu64 == 0) ==> (v & !(1u64 << k)) & 0xEEEE_EEEE_EEEE_EEEEu64 == 0,
        (k < 64 && (v >> k) & 1 == 1) ==> v & !(1u64 << k) < v,
{
}

/// Scanning a 64-bit value from either end: the highest set bit found by
/// `a` leading zeros and the lowest set bit found by `a` trailing zeros, and
/// the bits on the far side of them.
pub(crate) proof fn lemma_u64_scan(v: u64, a: u64, j: u64)
    by (bit_vector)
    ensures
        (v & 0x7f7f_7f7f_7f7f_7f7f == 0 && a < 64 && (v >> ((63 - a) as u64)) & 1 != 0)
            ==> a % 8 == 0 && (v >> ((63 - a) as u64)) & 1 == 1,
        (a <= 64 && v >> ((64 - a) as u64) == 0 && j < a && j < 64) ==> (v >> ((63 - j) as u64)) & 1 == 0,
        (v != 0 && a < 64 && (v >> a) & 1 == 1 && v << ((64 - a) as u64) == 0)
            ==> v & ((v - 1) as u64) == v & !(1u64 << a),
        (v & 0xfefe_fefe_fefe_fefe == 0 && a < 64 && (v >> a) & 1 == 1) ==> a % 8 == 0,
        (v & 0xEEEE_EEEE_EEEE_EEEEu64 == 0 && a < 64 && (v >> a) & 1 == 1) ==> a % 4 == 0,
        (a <= 64 && v << ((64 - a) as u64) == 0 && j < a) ==> (v >> j) & 1 == 0,
{
}

/// The lanes of a 64-bit comparison result or flag mask at bit position `k`,
/// and a few plain facts about 64-bit values.
pub(crate) proof fn lemma_u64_lanes(v: u64, k: u64)
    by (bit_vector)
    ensures
        (k < 64 && k % 8 == 0) ==> ((v & 0x0101_0101_0101_0101u64) >> k) & 1 == (v >> k) & 1,
        (v & 0x0101_0101_0101_0101u64) & 0xfefe_fefe_fefe_fefe == 0,
        (k < 64 && k % 4 == 0) ==> ((v & 0x1111_1111_1111_1111u64) >> k) & 1 == (v >> k) & 1,
        (v & 0x1111_1111_1111_1111u64) & 0xEEEE_EEEE_EEEE_EEEEu64 == 0,
        ((v >> k) & 0xFF == 0xFF || (v >> k) & 0xFF == 0) ==> (((v >> k) & 1 == 1) == ((v >> k) & 0xFF == 0xFF)),
        ((v >> k) & 0xF == 0xF || (v >> k) & 0xF == 0) ==> (((v >> k) & 1 == 1) == ((v >> k) & 0xF == 0xF)),
        k < 64 ==> ((v >> k) & 0xFF == 0xFF ==> ((!v) >> k) & 1 == 0) && ((v >> k) & 0xFF == 0 ==> ((!v) >> k) & 1 == 1),
        (v >> k) & 1 != 0 ==> (v >> k) & 1 == 1,
        (0u64 >> k) & 1 == 0,
        v >> 0u64 == v,
        (v >> 56u64) < 256,
        (v >> 57u64) < 0x80,
        v & 0x5FFF_FFFF_FFFF_FFFFu64 != 0 ==> v != 0,
        0u64 & 0x8000_0000_0000_0000u64 == 0,
        0xFFFF_FFFF_FFFF_FFFFu64 >> 57u64 << 57u64 == 0xFE00_0000_0000_0000u64,
{
}

/// Clearing and scanning a 32-bit value, and its byte lanes at position
/// `k`.
pub(crate) proof fn lemma_u32_bits(v: u32, k: u32, j: u32)
    by (bit_vector)
    ensures
        (k < 32 && j < 32) ==> ((v & !(1u32 << k)) >> j) & 1 == (if j == k { 0 } else { (v >> j) & 1 }),
        (k < 32 && v & 0xfefe_fefeu32 == 0) ==> (v & !(1u32 << k)) & 0xfefe_fefeu32 == 0,
        (k < 32 && (v >> k) & 1 == 1) ==> v & !(1u32 << k) < v,
        (v != 0 && k < 32 && (v >> k) & 1 == 1 && v << ((32 - k) as u32) == 0)
            ==> v & ((v - 1) as u32) == v & !(1u32 << k),
        (v & 0xfefe_fefeu32 == 0 && k < 32 && (v >> k) & 1 == 1 && v << ((32 - k) as u32) == 0)
            ==> k % 8 == 0 && (j < k ==> (v >> j) & 1 == 0),
        (k < 32 && k % 8 == 0) ==> ((v & 0x0101_0101u32) >> k) & 1 == (v >> k) & 1,
        (v & 0x0101_0101u32) & 0xfefe_fefeu32 == 0,
        (0u32 >> k) & 1 == 0,
        v >> 0u32 == v,
{
}

/// Scanning a 128-bit value from either end.
pub(crate) proof fn lemma_u128_scan(v: u128, a: u128, j: u128)
    by (bit_vector)
    ensures
        (v & 0x7f7f_7f7f_7f7f_7f7f_7f7f_7f7f_7f7f_7f7fu128 == 0 && a < 128 && (v >> ((127 - a) as u128)) & 1 == 1)
            ==> a % 8 == 0,
        (a <= 128 && v >> ((128 - a) as u128) == 0 && j < a) ==> (v >> ((127 - j) as u128)) & 1 == 0,
        (v != 0 && a < 128 && (v >> a) & 1 == 1 && v << ((128 - a) as u128) == 0)
            ==> v & ((v - 1) as u128) == v & !(1u128 << a),
        (v & 0xfefe_fefe_fefe_fefe_fefe_fefe_fefe_fefeu128 == 0 && a < 128 && (v >> a) & 1 == 1
            && v << ((128 - a) as u128) == 0) ==> a % 8 == 0 && (j < a ==> (v >> j) & 1 == 0),
{
}

/// The byte lanes of a 128-bit mask at position `k`, and how a byte widens.
pub(crate) proof fn lemma_u128_lanes(v: u128, k: u128, b: u8)
    by (bit_vector)
    ensures
        (k < 128 && k % 8 == 0) ==> ((v & 0x0101_0101_0101_0101_0101_0101_0101_0101u128) >> k) & 1 == (v >> k) & 1,
        (v & 0x0101_0101_0101_0101_0101_0101_0101_0101u128) & 0xfefe_fefe_fefe_fefe_fefe_fefe_fefe_fefeu128 == 0,
        v >> 0u128 == v,
        (0u128 >> k) & 1 == 0,
        (b as u128) & 1 == (b & 1) as u128,
        b <= 1 ==> ((b & 1 == 1) == (b == 1)),
        b <= 1 ==> ((b & 1 == 0) == (b == 0)),
{
}

/// The stored forms of a hash in the two table layouts: with the occupied
/// bit of the chunked layout, and with the top bit set.
pub(crate) proof fn lemma_stored_hashes(hash: u64, stored: u64)
    by (bit_vector)
    ensures
        ((hash & 0x1FFF_FFFF_FFFF_FFFFu64) | 0x4000_0000_0000_0000u64) != 0,
        ((hash & 0x1FFF_FFFF_FFFF_FFFFu64) | 0x4000_0000_0000_0000u64) & 0x5FFF_FFFF_FFFF_FFFFu64
            == (hash & 0x1FFF_FFFF_FFFF_FFFFu64) | 0x4000_0000_0000_0000u64,
        ((hash & 0x1FFF_FFFF_FFFF_FFFFu64) | 0x4000_0000_0000_0000u64) & 0x8000_0000_0000_0000u64 == 0,
        (stored | 0x8000_0000_0000_0000u64) & 0x5FFF_FFFF_FFFF_FFFFu64 == stored & 0x5FFF_FFFF_FFFF_FFFFu64,
        (stored | 0x8000_0000_0000_0000u64) & 0x00FF_FFFF_FFFF_FFFFu64 == stored & 0x00FF_FFFF_FFFF_FFFFu64,
        (stored | 0x8000_0000_0000_0000u64) & 0x01FF_FFFF_FFFF_FFFFu64 == stored & 0x01FF_FFFF_FFFF_FFFFu64,
        (stored | 0x8000_0000_0000_0000u64) & 0x8000_0000_0000_0000u64 != 0,
        hash | 0x8000_0000_0000_0000u64 != 0,
        (hash | 0x8000_0000_0000_0000u64) | 0x8000_0000_0000_0000u64 == hash | 0x8000_0000_0000_0000u64,
{
}

/// Masking a `usize` with `m` gives at most `m`, and, in a table of at most
/// 2^63 slots, the top bit of a 64-bit hash does not change its slot.
pub(crate) proof fn lemma_usize_mask(x: usize, m: usize, hash: u64)
    by (bit_vector)
    ensures
        x & m <= m,
        m < 0x8000_0000_0000_0000u64 ==> (hash as usize) & m == ((hash | 0x8000_0000_0000_0000u64) as usize) & m,
{
}


/// Two `usize` values that agree on every bit below the width of `usize`
/// are equal.
proof fn lemma_usize_bits_agree(a: usize, b: usize)
    by (bit_vector)
    requires
        usize::BITS <= 0 || ((a >> 0usize) & 1 == 1) == ((b >> 0usize) & 1 == 1),
        usize::BITS <= 1 || ((a >> 1usize) & 1 == 1) == ((b >> 1usize) & 1 == 1),
        usize::BITS <= 2 || ((a >> 2usize) & 1 == 1) == ((b >> 2usize) & 1 == 1),
        usize::BITS <= 3 || ((a >> 3usize) & 1 == 1) == ((b >> 3usize) & 1 == 1),
        usize::BITS <= 4 || ((a >> 4usize) & 1 == 1) == ((b >> 4usize) & 1 == 1),
        usize::BITS <= 5 || ((a >> 5usize) & 1 == 1) == ((b >> 5usize) & 1 == 1),
        usize::BITS <= 6 || ((a >> 6usize) & 1 == 1) == ((b >> 6usize) & 1 == 1),
        usize::BITS <= 7 || ((a >> 7usize) & 1 == 1) == ((b >> 7usize) & 1 == 1),
        usize::BITS <= 8 || ((a >> 8usize) & 1 == 1) == ((b >> 8usize) & 1 == 1),
        usize::BITS <= 9 || ((a >> 9usize) & 1 == 1) == ((b >> 9usize) & 1 == 1),
        usize::BITS <= 10 || ((a >> 10usize) & 1 == 1) == ((b >> 10usize) & 1 == 1),
        usize::BITS <= 11 || ((a >> 11usize) & 1 == 1) == ((b >> 11usize) & 1 == 1),
        usize::BITS <= 12 || ((a >> 12usize) & 1 == 1) == ((b >> 12usize) & 1 == 1),
        usize::BITS <= 13 || ((a >> 13usize) & 1 == 1) == ((b >> 13usize) & 1 == 1),
        usize::BITS <= 14 || ((a >> 14usize) & 1 == 1) == ((b >> 14usize) & 1 == 1),
        usize::BITS <= 15 || ((a >> 15usize) & 1 == 1) == ((b >> 15usize) & 1 == 1),
        usize::BITS <= 16 || ((a >> 16usize) & 1 == 1) == ((b >> 16usize) & 1 == 1),
        usize::BITS <= 17 || ((a >> 17usize) & 1 == 1) == ((b >> 17usize) & 1 == 1),
        usize::BITS <= 18 || ((a >> 18usize) & 1 == 1) == ((b >> 18usize) & 1 == 1),
        usize::BITS <= 19 || ((a >> 19usize) & 1 == 1) == ((b >> 19usize) & 1 == 1),
        usize::BITS <= 20 || ((a >> 20usize) & 1 == 1) == ((b >> 20usize) & 1 == 1),
        usize::BITS <= 21 || ((a >> 21usize) & 1 == 1) == ((b >> 21usize) & 1 == 1),
        usize::BITS <= 22 || ((a >> 22usize) & 1 == 1) == ((b >> 22usize) & 1 == 1),
        usize::BITS <= 23 || ((a >> 23usize) & 1 == 1) == ((b >> 23usize) & 1 == 1),
        usize::BITS <= 24 || ((a >> 24usize) & 1 == 1) == ((b >> 24usize) & 1 == 1),
        usize::BITS <= 25 || ((a >> 25usize) & 1 == 1) == ((b >> 25usize) & 1 == 1),
        usize::BITS <= 26 || ((a >> 26usize) & 1 == 1) == ((b >> 26usize) & 1 == 1),
        usize::BITS <= 27 || ((a >> 27usize) & 1 == 1) == ((b >> 27usize) & 1 == 1),
        usize::BITS <= 28 || ((a >> 28usize) & 1 == 1) == ((b >> 28usize) & 1 == 1),
        usize::BITS <= 29 || ((a >> 29usize) & 1 == 1) == ((b >> 29usize) & 1 == 1),
        usize::BITS <= 30 || ((a >> 30usize) & 1 == 1) == ((b >> 30usize) & 1 == 1),
        usize::BITS <= 31 || ((a >> 31usize) & 1 == 1) == ((b >> 31usize) & 1 == 1),
        usize::BITS <= 32 || ((a >> 32usize) & 1 == 1) == ((b >> 32usize) & 1 == 1),
        usize::BITS <= 33 || ((a >> 33usize) & 1 == 1) == ((b >> 33usize) & 1 == 1),
        usize::BITS <= 34 || ((a >> 34usize) & 1 == 1) == ((b >> 34usize) & 1 == 1),
        usize::BITS <= 35 || ((a >> 35usize) & 1 == 1) == ((b >> 35usize) & 1 == 1),
        usize::BITS <= 36 || ((a >> 36usize) & 1 == 1) == ((b >> 36usize) & 1 == 1),
        usize::BITS <= 37 || ((a >> 37usize) & 1 == 1) == ((b >> 37usize) & 1 == 1),
        usize::BITS <= 38 || ((a >> 38usize) & 1 == 1) == ((b >> 38usize) & 1 == 1),
        usize::BITS <= 39 || ((a >> 39usize) & 1 == 1) == ((b >> 39usize) & 1 == 1),
        usize::BITS <= 40 || ((a >> 40usize) & 1 == 1) == ((b >> 40usize) & 1 == 1),
        usize::BITS <= 41 || ((a >> 41usize) & 1 == 1) == ((b >> 41usize) & 1 == 1),
        usize::BITS <= 42 || ((a >> 42usize) & 1 == 1) == ((b >> 42usize) & 1 == 1),
        usize::BITS <= 43 || ((a >> 43usize) & 1 == 1) == ((b >> 43usize) & 1 == 1),
        usize::BITS <= 44 || ((a >> 44usize) & 1 == 1) == ((b >> 44usize) & 1 == 1),
        usize::BITS <= 45 || ((a >> 45usize) & 1 == 1) == ((b >> 45usize) & 1 == 1),
        usize::BITS <= 46 || ((a >> 46usize) & 1 == 1) == ((b >> 46usize) & 1 == 1),
        usize::BITS <= 47 || ((a >> 47usize) & 1 == 1) == ((b >> 47usize) & 1 == 1),
        usize::BITS <= 48 || ((a >> 48usize) & 1 == 1) == ((b >> 48usize) & 1 == 1),
        usize::BITS <= 49 || ((a >> 49usize) & 1 == 1) == ((b >> 49usize) & 1 == 1),
        usize::BITS <= 50 || ((a >> 50usize) & 1 == 1) == ((b >> 50usize) & 1 == 1),
        usize::BITS <= 51 || ((a >> 51usize) & 1 == 1) == ((b >> 51usize) & 1 == 1),
        usize::BITS <= 52 || ((a >> 52usize) & 1 == 1) == ((b >> 52usize) & 1 == 1),
        usize::BITS <= 53 || ((a >> 53usize) & 1 == 1) == ((b >> 53usize) & 1 == 1),
        usize::BITS <= 54 || ((a >> 54usize) & 1 == 1) == ((b >> 54usize) & 1 == 1),
        usize::BITS <= 55 || ((a >> 55usize) & 1 == 1) == ((b >> 55usize) & 1 == 1),
        usize::BITS <= 56 || ((a >> 56usize) & 1 == 1) == ((b >> 56usize) & 1 == 1),
        usize::BITS <= 57 || ((a >> 57usize) & 1 == 1) == ((b >> 57usize) & 1 == 1),
        usize::BITS <= 58 || ((a >> 58usize) & 1 == 1) == ((b >> 58usize) & 1 == 1),
        usize::BITS <= 59 || ((a >> 59usize) & 1 == 1) == ((b >> 59usize) & 1 == 1),
        usize::BITS <= 60 || ((a >> 60usize) & 1 == 1) == ((b >> 60usize) & 1 == 1),
        usize::BITS <= 61 || ((a >> 61usize) & 1 == 1) == ((b >> 61usize) & 1 == 1),
        usize::BITS <= 62 || ((a >> 62usize) & 1 == 1) == ((b >> 62usize) & 1 == 1),
        usize::BITS <= 63 || ((a >> 63usize) & 1 == 1) == ((b >> 63usize) & 1 == 1),
    ensures
        a == b,
{
}

/// Two `usize` values whose bits all agree are equal.
pub(crate) proof fn lemma_usize_bit_ext(a: usize, b: usize)
    requires
        forall|i: usize| i < usize::BITS ==> ((#[trigger] (a >> i) & 1) == 1) == (((b >> i) & 1) == 1),
    ensures
        a == b,
{
    assert(usize::BITS <= 0 || ((a >> 0usize) & 1 == 1) == ((b >> 0usize) & 1 == 1));
    assert(usize::BITS <= 1 || ((a >> 1usize) & 1 == 1) == ((b >> 1usize) & 1 == 1));
    assert(usize::BITS <= 2 || ((a >> 2usize) & 1 == 1) == ((b >> 2usize) & 1 == 1));
    assert(usize::BITS <= 3 || ((a >> 3usize) & 1 == 1) == ((b >> 3usize) & 1 == 1));
    assert(usize::BITS <= 4 || ((a >> 4usize) & 1 == 1) == ((b >> 4usize) & 1 == 1));
    assert(usize::BITS <= 5 || ((a >> 5usize) & 1 == 1) == ((b >> 5usize) & 1 == 1));
    assert(usize::BITS <= 6 || ((a >> 6usize) & 1 == 1) == ((b >> 6usize) & 1 == 1));
    assert(usize::BITS <= 7 || ((a >> 7usize) & 1 == 1) == ((b >> 7usize) & 1 == 1));
    assert(usize::BITS <= 8 || ((a >> 8usize) & 1 == 1) == ((b >> 8usize) & 1 == 1));
    assert(usize::BITS <= 9 || ((a >> 9usize) & 1 == 1) == ((b >> 9usize) & 1 == 1));
    assert(usize::BITS <= 10 || ((a >> 10usize) & 1 == 1) == ((b >> 10usize) & 1 == 1));
    assert(usize::BITS <= 11 || ((a >> 11usize) & 1 == 1) == ((b >> 11usize) & 1 == 1));
    assert(usize::BITS <= 12 || ((a >> 12usize) & 1 == 1) == ((b >> 12usize) & 1 == 1));
    assert(usize::BITS <= 13 || ((a >> 13usize) & 1 == 1) == ((b >> 13usize) & 1 == 1));
    assert(usize::BITS <= 14 || ((a >> 14usize) & 1 == 1) == ((b >> 14usize) & 1 == 1));
    assert(usize::BITS <= 15 || ((a >> 15usize) & 1 == 1) == ((b >> 15usize) & 1 == 1));
    assert(usize::BITS <= 16 || ((a >> 16usize) & 1 == 1) == ((b >> 16usize) & 1 == 1));
    assert(usize::BITS <= 17 || ((a >> 17usize) & 1 == 1) == ((b >> 17usize) & 1 == 1));
    assert(usize::BITS <= 18 || ((a >> 18usize) & 1 == 1) == ((b >> 18usize) & 1 == 1));
    assert(usize::BITS <= 19 || ((a >> 19usize) & 1 == 1) == ((b >> 19usize) & 1 == 1));
    assert(usize::BITS <= 20 || ((a >> 20usize) & 1 == 1) == ((b >> 20usize) & 1 == 1));
    assert(usize::BITS <= 21 || ((a >> 21usize) & 1 == 1) == ((b >> 21usize) & 1 == 1));
    assert(usize::BITS <= 22 || ((a >> 22usize) & 1 == 1) == ((b >> 22usize) & 1 == 1));
    assert(usize::BITS <= 23 || ((a >> 23usize) & 1 == 1) == ((b >> 23usize) & 1 == 1));
    assert(usize::BITS <= 24 || ((a >> 24usize) & 1 == 1) == ((b >> 24usize) & 1 == 1));
    assert(usize::BITS <= 25 || ((a >> 25usize) & 1 == 1) == ((b >> 25usize) & 1 == 1));
    assert(usize::BITS <= 26 || ((a >> 26usize) & 1 == 1) == ((b >> 26usize) & 1 == 1));
    assert(usize::BITS <= 27 || ((a >> 27usize) & 1 == 1) == ((b >> 27usize) & 1 == 1));
    assert(usize::BITS <= 28 || ((a >> 28usize) & 1 == 1) == ((b >> 28usize) & 1 == 1));
    assert(usize::BITS <= 29 || ((a >> 29usize) & 1 == 1) == ((b >> 29usize) & 1 == 1));
    assert(usize::BITS <= 30 || ((a >> 30usize) & 1 == 1) == ((b >> 30usize) & 1 == 1));
    assert(usize::BITS <= 31 || ((a >> 31usize) & 1 == 1) == ((b >> 31usize) & 1 == 1));
    assert(usize::BITS <= 32 || ((a >> 32usize) & 1 == 1) == ((b >> 32usize) & 1 == 1));
    assert(usize::BITS <= 33 || ((a >> 33usize) & 1 == 1) == ((b >> 33usize) & 1 == 1));
    assert(usize::BITS <= 34 || ((a >> 34usize) & 1 == 1) == ((b >> 34usize) & 1 == 1));
    assert(usize::BITS <= 35 || ((a >> 35usize) & 1 == 1) == ((b >> 35usize) & 1 == 1));
    assert(usize::BITS <= 36 || ((a >> 36usize) & 1 == 1) == ((b >> 36usize) & 1 == 1));
    assert(usize::BITS <= 37 || ((a >> 37usize) & 1 == 1) == ((b >> 37usize) & 1 == 1));
    assert(usize::BITS <= 38 || ((a >> 38usize) & 1 == 1) == ((b >> 38usize) & 1 == 1));
    assert(usize::BITS <= 39 || ((a >> 39usize) & 1 == 1) == ((b >> 39usize) & 1 == 1));
    assert(usize::BITS <= 40 || ((a >> 40usize) & 1 == 1) == ((b >> 40usize) & 1 == 1));
    assert(usize::BITS <= 41 || ((a >> 41usize) & 1 == 1) == ((b >> 41usize) & 1 == 1));
    assert(usize::BITS <= 42 || ((a >> 42usize) & 1 == 1) == ((b >> 42usize) & 1 == 1));
    assert(usize::BITS <= 43 || ((a >> 43usize) & 1 == 1) == ((b >> 43usize) & 1 == 1));
    assert(usize::BITS <= 44 || ((a >> 44usize) & 1 == 1) == ((b >> 44usize) & 1 == 1));
    assert(usize::BITS <= 45 || ((a >> 45usize) & 1 == 1) == ((b >> 45usize) & 1 == 1));
    assert(usize::BITS <= 46 || ((a >> 46usize) & 1 == 1) == ((b >> 46usize) & 1 == 1));
    assert(usize::BITS <= 47 || ((a >> 47usize) & 1 == 1) == ((b >> 47usize) & 1 == 1));
    assert(usize::BITS <= 48 || ((a >> 48usize) & 1 == 1) == ((b >> 48usize) & 1 == 1));
    assert(usize::BITS <= 49 || ((a >> 49usize) & 1 == 1) == ((b >> 49usize) & 1 == 1));
    assert(usize::BITS <= 50 || ((a >> 50usize) & 1 == 1) == ((b >> 50usize) & 1 == 1));
    assert(usize::BITS <= 51 || ((a >> 51usize) & 1 == 1) == ((b >> 51usize) & 1 == 1));
    assert(usize::BITS <= 52 || ((a >> 52usize) & 1 == 1) == ((b >> 52usize) & 1 == 1));
    assert(usize::BITS <= 53 || ((a >> 53usize) & 1 == 1) == ((b >> 53usize) & 1 == 1));
    assert(usize::BITS <= 54 || ((a >> 54usize) & 1 == 1) == ((b >> 54usize) & 1 == 1));
    assert(usize::BITS <= 55 || ((a >> 55usize) & 1 == 1) == ((b >> 55usize) & 1 == 1));
    assert(usize::BITS <= 56 || ((a >> 56usize) & 1 == 1) == ((b >> 56usize) & 1 == 1));
    assert(usize::BITS <= 57 || ((a >> 57usize) & 1 == 1) == ((b >> 57usize) & 1 == 1));
    assert(usize::BITS <= 58 || ((a >> 58usize) & 1 == 1) == ((b >> 58usize) & 1 == 1));
    assert(usize::BITS <= 59 || ((a >> 59usize) & 1 == 1) == ((b >> 59usize) & 1 == 1));
    assert(usize::BITS <= 60 || ((a >> 60usize) & 1 == 1) == ((b >> 60usize) & 1 == 1));
    assert(usize::BITS <= 61 || ((a >> 61usize) & 1 == 1) == ((b >> 61usize) & 1 == 1));
    assert(usize::BITS <= 62 || ((a >> 62usize) & 1 == 1) == ((b >> 62usize) & 1 == 1));
    assert(usize::BITS <= 63 || ((a >> 63usize) & 1 == 1) == ((b >> 63usize) & 1 == 1));
    lemma_usize_bits_agree(a, b);
}

} // verus!
