//! Byte vectors held in arrays, and what the grouped lookups build from
//! their lane operations: four search tags spread over sixteen lanes, four
//! groups of four tags gathered into one vector, and a comparison
//! compressed into one byte.
//!
//! Lane `i` of a vector is element `i` of its array. A comparison lane is
//! `0xFF` where the two bytes are equal and `0` where they differ.

use vstd::prelude::*;

verus! {

/// Each of four tags, repeated over four consecutive lanes.
pub open spec fn spread_x4(tags: Seq<u8>) -> Seq<u8> {
    seq![
        tags[0], tags[0], tags[0], tags[0], tags[1], tags[1], tags[1], tags[1],
        tags[2], tags[2], tags[2], tags[2], tags[3], tags[3], tags[3], tags[3],
    ]
}

/// The comparison lane of two bytes.
pub open spec fn eq_byte(a: u8, b: u8) -> u8 {
    if a == b { 0xFF } else { 0 }
}

/// A pair of lanes read as one 16-bit lane, the first lane low, shifted
/// right by seven and narrowed to a byte, saturating at `0xFF`.
pub open spec fn narrowed_pair(low: u8, high: u8) -> int {
    let shifted = (low + 256 * high) / 128;
    if shifted > 255 { 255 } else { shifted }
}

/// What compressing eight lanes gives: the low two bits of the narrowed
/// first pair of lanes, repeated in each of the four bit pairs of the byte.
/// The other six lanes play no part.
pub open spec fn compressed_lanes(first: u8, second: u8) -> u8 {
    ((narrowed_pair(first, second) % 4) * 0x55) as u8
}

/// What compressing a comparison gives: `0xFF` when its second lane
/// matched, `0x55` when only its first did, and `0` when neither did.
pub open spec fn compressed_match(first: bool, second: bool) -> u8 {
    if second { 0xFF } else if first { 0x55 } else { 0 }
}

/// The bytes of a 32-bit word put together least significant first, read
/// back from the word and from its 64-bit widening.
proof fn lemma_le_u32(b0: u8, b1: u8, b2: u8, b3: u8, x: u32)
    by (bit_vector)
    requires
        x == (b0 as u32) | ((b1 as u32) << 8u32) | ((b2 as u32) << 16u32) | ((b3 as u32) << 24u32),
    ensures
        (x as u64) as u8 == b0,
        ((x as u64) >> 8u64) as u8 == b1,
        ((x as u64) >> 16u64) as u8 == b2,
        ((x as u64) >> 24u64) as u8 == b3,
        ((x as u64) >> 32u64) as u8 == 0,
        ((x as u64) >> 40u64) as u8 == 0,
        ((x as u64) >> 48u64) as u8 == 0,
        ((x as u64) >> 56u64) as u8 == 0,
        x & 3 == ((b0 % 4) as u32),
        (b0 <= 1 && b1 <= 1 && b2 <= 1 && b3 <= 1) ==> x & 0xfefe_fefeu32 == 0,
        b0 <= 1 ==> ((x & 1 == 1) == (b0 == 1)),
        b1 <= 1 ==> (((x >> 8u32) & 1 == 1) == (b1 == 1)),
        b2 <= 1 ==> (((x >> 16u32) & 1 == 1) == (b2 == 1)),
        b3 <= 1 ==> (((x >> 24u32) & 1 == 1) == (b3 == 1)),
{
}

/// A pair of lanes read as one 16-bit lane and shifted right by seven.
proof fn lemma_narrow(low: u8, high: u8, wide: u16)
    by (bit_vector)
    requires
        wide == (low as u16) | ((high as u16) << 8u16),
    ensures
        wide >> 7u16 == ((low as u16) + 256 * (high as u16)) / 128,
{
}

/// The steps of compressing: the two-bit mask shifted out and back, each
/// new bit pair joining those before it, and the low bit of a comparison
/// lane.
proof fn lemma_compress_steps(k: u32, p: u8)
    by (bit_vector)
    ensures
        k <= 24 ==> (3u32 << k) >> k == 3u32,
        p < 4 ==> (0u8 | (p << 0u32)) == p,
        p < 4 ==> (p | (p << 2u32)) == p * 5,
        p < 4 ==> (((p * 5) as u8) | (p << 4u32)) == p * 21,
        p < 4 ==> (((p * 21) as u8) | (p << 6u32)) == p * 85,
        0xFFu8 & 1u8 == 1u8,
        0u8 & 1u8 == 0u8,
{
}

/// The first `n` bit pairs of a byte, each holding `p`.
spec fn repeated_pairs(p: u8, n: u32) -> int {
    if n == 0 {
        0
    } else if n == 1 {
        p as int
    } else if n == 2 {
        p * 5
    } else if n == 3 {
        p * 21
    } else {
        p * 85
    }
}

/// Eight lanes, each holding `value`.
fn dup_u8x8(value: u8) -> (r: [u8; 8])
    ensures
        r@ == seq![value, value, value, value, value, value, value, value],
{
    let r = [value, value, value, value, value, value, value, value];
    assert(r@ =~= seq![value, value, value, value, value, value, value, value]);
    r
}

/// Sixteen lanes, each holding `value`.
fn dup_u8x16(value: u8) -> (r: [u8; 16])
    ensures
        forall|i: int| 0 <= i < 16 ==> #[trigger] r@[i] == value,
{
    [value, value, value, value, value, value, value, value, value, value, value, value, value, value, value, value]
}

/// The eight byte lanes of `bits`, least significant first.
fn create_u8x8(bits: u64) -> (r: [u8; 8])
    ensures
        r@ == seq![
            bits as u8, (bits >> 8u64) as u8, (bits >> 16u64) as u8, (bits >> 24u64) as u8,
            (bits >> 32u64) as u8, (bits >> 40u64) as u8, (bits >> 48u64) as u8, (bits >> 56u64) as u8,
        ],
{
    let r = [
        bits as u8, (bits >> 8u64) as u8, (bits >> 16u64) as u8, (bits >> 24u64) as u8,
        (bits >> 32u64) as u8, (bits >> 40u64) as u8, (bits >> 48u64) as u8, (bits >> 56u64) as u8,
    ];
    assert(r@ =~= seq![
        bits as u8, (bits >> 8u64) as u8, (bits >> 16u64) as u8, (bits >> 24u64) as u8,
        (bits >> 32u64) as u8, (bits >> 40u64) as u8, (bits >> 48u64) as u8, (bits >> 56u64) as u8,
    ]);
    r
}

/// `lanes` with lane `lane` replaced by `value`.
fn set_lane_u8x8(value: u8, lanes: [u8; 8], lane: usize) -> (r: [u8; 8])
    requires
        lane < 8,
    ensures
        r@ == lanes@.update(lane as int, value),
{
    let mut r = lanes;
    r[lane] = value;
    assert(r@ =~= lanes@.update(lane as int, value));
    r
}

/// The low 32-bit halves of `a` and `b`, side by side.
fn zip1_u32x2(a: [u8; 8], b: [u8; 8]) -> (r: [u8; 8])
    ensures
        r@ == seq![a@[0], a@[1], a@[2], a@[3], b@[0], b@[1], b@[2], b@[3]],
{
    let r = [a[0], a[1], a[2], a[3], b[0], b[1], b[2], b[3]];
    assert(r@ =~= seq![a@[0], a@[1], a@[2], a@[3], b@[0], b@[1], b@[2], b@[3]]);
    r
}

/// The low four lanes of `a` and `b`, interleaved.
fn zip1_u8x8(a: [u8; 8], b: [u8; 8]) -> (r: [u8; 8])
    ensures
        r@ == seq![a@[0], b@[0], a@[1], b@[1], a@[2], b@[2], a@[3], b@[3]],
{
    let r = [a[0], b[0], a[1], b[1], a[2], b[2], a[3], b[3]];
    assert(r@ =~= seq![a@[0], b@[0], a@[1], b@[1], a@[2], b@[2], a@[3], b@[3]]);
    r
}

/// The high four lanes of `a` and `b`, interleaved.
fn zip2_u8x8(a: [u8; 8], b: [u8; 8]) -> (r: [u8; 8])
    ensures
        r@ == seq![a@[4], b@[4], a@[5], b@[5], a@[6], b@[6], a@[7], b@[7]],
{
    let r = [a[4], b[4], a[5], b[5], a[6], b[6], a[7], b[7]];
    assert(r@ =~= seq![a@[4], b@[4], a@[5], b@[5], a@[6], b@[6], a@[7], b@[7]]);
    r
}

/// Both interleavings of `a` and `b`: their low lanes, then their high
/// lanes.
fn zip_u8x8(a: [u8; 8], b: [u8; 8]) -> (r: ([u8; 8], [u8; 8]))
    ensures
        r.0@ == seq![a@[0], b@[0], a@[1], b@[1], a@[2], b@[2], a@[3], b@[3]],
        r.1@ == seq![a@[4], b@[4], a@[5], b@[5], a@[6], b@[6], a@[7], b@[7]],
{
    (zip1_u8x8(a, b), zip2_u8x8(a, b))
}

/// The lanes of `low`, then those of `high`.
fn combine_u8x8(low: [u8; 8], high: [u8; 8]) -> (r: [u8; 16])
    ensures
        r@ == low@ + high@,
{
    let r = [
        low[0], low[1], low[2], low[3], low[4], low[5], low[6], low[7],
        high[0], high[1], high[2], high[3], high[4], high[5], high[6], high[7],
    ];
    assert(r@ =~= low@ + high@);
    r
}

/// The comparison lanes of `a` against `b`.
fn compare_eq_u8x8(a: [u8; 8], b: [u8; 8]) -> (r: [u8; 8])
    ensures
        forall|i: int| 0 <= i < 8 ==> #[trigger] r@[i] == eq_byte(a@[i], b@[i]),
{
    let mut r = [0u8; 8];
    let mut i: usize = 0;
    while i < 8
        invariant
            i <= 8,
            forall|j: int| 0 <= j < i ==> #[trigger] r@[j] == eq_byte(a@[j], b@[j]),
        decreases 8 - i,
    {
        r[i] = if a[i] == b[i] { 0xFF } else { 0 };
        i += 1;
    }
    r
}

/// The comparison lanes of `a` against `b`.
fn compare_eq_u8x16(a: [u8; 16], b: [u8; 16]) -> (r: [u8; 16])
    ensures
        forall|i: int| 0 <= i < 16 ==> #[trigger] r@[i] == eq_byte(a@[i], b@[i]),
{
    let mut r = [0u8; 16];
    let mut i: usize = 0;
    while i < 16
        invariant
            i <= 16,
            forall|j: int| 0 <= j < i ==> #[trigger] r@[j] == eq_byte(a@[j], b@[j]),
        decreases 16 - i,
    {
        r[i] = if a[i] == b[i] { 0xFF } else { 0 };
        i += 1;
    }
    r
}

/// The lanes of `a` and `b`, bit by bit.
fn and_u8x16(a: [u8; 16], b: [u8; 16]) -> (r: [u8; 16])
    ensures
        forall|i: int| 0 <= i < 16 ==> #[trigger] r@[i] == a@[i] & b@[i],
{
    let mut r = [0u8; 16];
    let mut i: usize = 0;
    while i < 16
        invariant
            i <= 16,
            forall|j: int| 0 <= j < i ==> #[trigger] r@[j] == a@[j] & b@[j],
        decreases 16 - i,
    {
        r[i] = a[i] & b[i];
        i += 1;
    }
    r
}

/// Four bytes as one 32-bit word, the first least significant.
pub(crate) fn le_u32(bytes: [u8; 4]) -> (r: u32)
    ensures
        r == (bytes@[0] as u32) | ((bytes@[1] as u32) << 8u32) | ((bytes@[2] as u32) << 16u32)
            | ((bytes@[3] as u32) << 24u32),
{
    (bytes[0] as u32) | ((bytes[1] as u32) << 8u32) | ((bytes[2] as u32) << 16u32) | ((bytes[3] as u32) << 24u32)
}

/// Whether each of four bytes is 0 or 1.
pub open spec fn unit_bytes(bytes: Seq<u8>) -> bool {
    forall|i: int| 0 <= i < 4 ==> #[trigger] bytes[i] <= 1
}

/// A word made of four bytes that are each 0 or 1 holds only lane flags,
/// and lane `i` is set exactly when byte `i` is 1.
pub(crate) proof fn lemma_unit_lanes(bytes: [u8; 4], x: u32)
    requires
        unit_bytes(bytes@),
        x == (bytes@[0] as u32) | ((bytes@[1] as u32) << 8u32) | ((bytes@[2] as u32) << 16u32)
            | ((bytes@[3] as u32) << 24u32),
    ensures
        x & 0xfefe_fefeu32 == 0,
        forall|i: int| 0 <= i < 4 ==> ((#[trigger] ((x >> ((8 * i) as u32)) & 1)) == 1 <==> bytes@[i] == 1),
{
    let (b0, b1, b2, b3) = (bytes@[0], bytes@[1], bytes@[2], bytes@[3]);
    assert(b0 <= 1 && b1 <= 1 && b2 <= 1 && b3 <= 1);
    lemma_le_u32(b0, b1, b2, b3, x);
    assert forall|i: int| 0 <= i < 4 implies ((#[trigger] ((x >> ((8 * i) as u32)) & 1)) == 1 <==> bytes@[i] == 1) by {
        if i == 0 {
            assert(x >> 0u32 == x) by (bit_vector);
        } else if i == 1 {
            assert((8 * i) as u32 == 8u32);
        } else if i == 2 {
            assert((8 * i) as u32 == 16u32);
        } else {
            assert((8 * i) as u32 == 24u32);
        }
    }
}

/// Spreads four search tags over sixteen lanes by loading each into all
/// lanes of its own vector and taking the low halves of pairs of them.
pub fn interleave_x4(search_tags: [u8; 4]) -> (r: [u8; 16])
    ensures
        r@ == spread_x4(search_tags@),
{
    let many_u8_register = (
        dup_u8x8(search_tags[0]),
        dup_u8x8(search_tags[1]),
        dup_u8x8(search_tags[2]),
        dup_u8x8(search_tags[3]),
    );
    let left = zip1_u32x2(many_u8_register.0, many_u8_register.1);
    let right = zip1_u32x2(many_u8_register.2, many_u8_register.3);
    let search_tags_x4 = combine_u8x8(left, right);
    assert(search_tags_x4@ =~= spread_x4(search_tags@));
    search_tags_x4
}

/// Spreads four search tags over sixteen lanes by interleaving a vector of
/// them with itself twice.
pub fn interleave_x4_b(search_tags: &[u8; 4]) -> (r: [u8; 16])
    ensures
        r@ == spread_x4(search_tags@),
{
    let word = le_u32(*search_tags);
    let u8buf = create_u8x8(word as u64);
    proof {
        lemma_le_u32(search_tags@[0], search_tags@[1], search_tags@[2], search_tags@[3], word);
    }
    let x8buf_x2 = zip1_u8x8(u8buf, u8buf);
    let x8buf_x2 = zip_u8x8(x8buf_x2, x8buf_x2);
    let r = combine_u8x8(x8buf_x2.0, x8buf_x2.1);
    assert(r@ =~= spread_x4(search_tags@));
    r
}

/// Spreads four search tags over sixteen lanes by setting them one lane
/// at a time and interleaving the vector with itself twice.
pub fn interleave_x4_c(search_tags: [u8; 4]) -> (r: [u8; 16])
    ensures
        r@ == spread_x4(search_tags@),
{
    let v = create_u8x8(0);
    let v = set_lane_u8x8(search_tags[0], v, 0);
    let v = set_lane_u8x8(search_tags[1], v, 1);
    let v = set_lane_u8x8(search_tags[2], v, 2);
    let v = set_lane_u8x8(search_tags[3], v, 3);
    let v2 = zip1_u8x8(v, v);
    let v4 = zip_u8x8(v2, v2);
    let r = combine_u8x8(v4.0, v4.1);
    assert(r@ =~= spread_x4(search_tags@));
    r
}

/// Spreads four search tags over sixteen lanes, lane by lane.
pub fn interleave_x4_d(search_tags: &[u8; 4]) -> (r: [u8; 16])
    ensures
        r@ == spread_x4(search_tags@),
{
    let b = [
        search_tags[0],
        search_tags[0],
        search_tags[0],
        search_tags[0],
        search_tags[1],
        search_tags[1],
        search_tags[1],
        search_tags[1],
        search_tags[2],
        search_tags[2],
        search_tags[2],
        search_tags[2],
        search_tags[3],
        search_tags[3],
        search_tags[3],
        search_tags[3],
    ];
    assert(b@ =~= spread_x4(search_tags@));
    b
}

/// The tags of four groups of four, one after the other.
pub fn load_x4_d(groups: &[[u8; 4]; 4]) -> (r: [u8; 16])
    ensures
        r@ == groups@[0]@ + groups@[1]@ + groups@[2]@ + groups@[3]@,
{
    let b = [
        groups[0][0],
        groups[0][1],
        groups[0][2],
        groups[0][3],
        groups[1][0],
        groups[1][1],
        groups[1][2],
        groups[1][3],
        groups[2][0],
        groups[2][1],
        groups[2][2],
        groups[2][3],
        groups[3][0],
        groups[3][1],
        groups[3][2],
        groups[3][3],
    ];
    assert(b@ =~= groups@[0]@ + groups@[1]@ + groups@[2]@ + groups@[3]@);
    b
}

/// One pair of lanes, read as a 16-bit lane with the first lane low,
/// shifted right by seven and narrowed to a byte with saturation.
fn narrow_pair(low: u8, high: u8) -> (r: u8)
    ensures
        r == narrowed_pair(low, high),
{
    let wide: u16 = (low as u16) | ((high as u16) << 8u16);
    proof {
        lemma_narrow(low, high, wide);
    }
    let shifted = wide >> 7u16;
    if shifted > 255 { 255 } else { shifted as u8 }
}

/// Compresses eight lanes into one byte: each pair of lanes is narrowed to
/// a byte, the four bytes are read as a word, and four rounds each move two
/// bits of the word into the result. The mask of every round is shifted out
/// and back before it is applied, so every round reads the low two bits of
/// the word, and the result repeats them four times.
pub fn compress_match_result(match_result: [u8; 8]) -> (r: u8)
    ensures
        r == compressed_lanes(match_result@[0], match_result@[1]),
        (match_result@[0] == 0 || match_result@[0] == 0xFF) && (match_result@[1] == 0 || match_result@[1] == 0xFF)
            ==> r == compressed_match(match_result@[0] == 0xFF, match_result@[1] == 0xFF),
{
    let halved = [
        narrow_pair(match_result[0], match_result[1]),
        narrow_pair(match_result[2], match_result[3]),
        narrow_pair(match_result[4], match_result[5]),
        narrow_pair(match_result[6], match_result[7]),
    ];
    let extracted = le_u32(halved);
    let ghost p = (halved@[0] % 4) as u8;
    proof {
        lemma_le_u32(halved@[0], halved@[1], halved@[2], halved@[3], extracted);
    }
    let mut result = 0u8;
    let mut i: u32 = 0;
    while i < 4
        invariant
            i <= 4,
            p < 4,
            extracted & 3 == p as u32,
            result == repeated_pairs(p, i),
        decreases 4 - i,
    {
        proof {
            lemma_compress_steps((i * 8) as u32, p);
        }
        result |= ((extracted & (0b11 << (i * 8)) >> (i * 8)) as u8) << (i * 2);
        i += 1;
    }
    result
}

/// Compares the first eight of `values` with `search` and compresses the
/// comparison as [`compress_match_result`] does.
pub fn load_ptr_halved(search: u8, values: &[u8]) -> (r: u8)
    requires
        values@.len() >= 8,
    ensures
        r == compressed_match(values@[0] == search, values@[1] == search),
{
    let search_register = dup_u8x8(search);
    let values_register = [values[0], values[1], values[2], values[3], values[4], values[5], values[6], values[7]];
    let output = compare_eq_u8x8(values_register, search_register);
    compress_match_result(output)
}

/// The comparison of eight tags against `search_tag`, compressed as
/// [`compress_match_result`] does.
pub(crate) fn match_eight_as_u8(tags: [u8; 8], search_tag: u8) -> (r: u8)
    ensures
        r == compressed_match(tags@[0] == search_tag, tags@[1] == search_tag),
{
    let search_register = dup_u8x8(search_tag);
    let match_result = compare_eq_u8x8(tags, search_register);
    compress_match_result(match_result)
}

/// The tags of a group of four held in the low lanes of a vector of eight,
/// the high lanes zero.
pub(crate) fn widen_group4(tags: [u8; 4]) -> (r: [u8; 8])
    ensures
        r@ == tags@ + seq![0u8, 0u8, 0u8, 0u8],
{
    let word = le_u32(tags);
    let r = create_u8x8(word as u64);
    proof {
        lemma_le_u32(tags@[0], tags@[1], tags@[2], tags@[3], word);
        assert(r@ =~= tags@ + seq![0u8, 0u8, 0u8, 0u8]);
    }
    r
}

/// For four groups of four tags and four search tags, one byte per slot:
/// 1 where the tag of the slot equals the search tag of its group, 0
/// elsewhere.
pub(crate) fn match_four_groups(groups: &[[u8; 4]; 4], search_tags: &[u8; 4]) -> (r: [u8; 16])
    ensures
        forall|g: int, p: int| 0 <= g < 4 && 0 <= p < 4 ==>
            #[trigger] r@[4 * g + p] == (if groups@[g]@[p] == search_tags@[g] { 1u8 } else { 0u8 }),
{
    let search_tags_x4 = interleave_x4_d(search_tags);
    let groups_x4 = load_x4_d(groups);
    let match_result = compare_eq_u8x16(search_tags_x4, groups_x4);
    let masked_result = and_u8x16(match_result, dup_u8x16(1));
    proof {
        lemma_compress_steps(0, 0);
        assert forall|g: int, p: int| 0 <= g < 4 && 0 <= p < 4 implies
            #[trigger] masked_result@[4 * g + p] == (if groups@[g]@[p] == search_tags@[g] { 1u8 } else { 0u8 }) by {
            let k = 4 * g + p;
            assert(0 <= k < 16);
            assert(spread_x4(search_tags@)[k] == search_tags@[g]) by {
                assert(g == 0 || g == 1 || g == 2 || g == 3);
            }
            assert((groups@[0]@ + groups@[1]@ + groups@[2]@ + groups@[3]@)[k] == groups@[g]@[p]) by {
                assert(g == 0 || g == 1 || g == 2 || g == 3);
            }
            assert(match_result@[k] == eq_byte(search_tags_x4@[k], groups_x4@[k]));
        }
    }
    masked_result
}

} // verus!
