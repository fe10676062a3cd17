//! A simple open-addressing table of hashes for comparing probe sequences.
//!
//! Each slot holds a tag and a stored hash. The tag is the top `TAG_LENGTH`
//! bits of the hash, raised to at least 1 so that 0 marks an empty slot; the
//! stored hash keeps the low 62 bits of the hash and sets bit 62. Bit 63 of a
//! stored hash is left to the probe sequence, which may use it to mark a
//! group that an insertion had to step past. With a tag of seven or eight
//! bits, the tag and the stored hash together determine the hash.

use vstd::prelude::*;
use vstd::arithmetic::power2::pow2;
use vstd::arithmetic::div_mod::{
    lemma_fundamental_div_mod, lemma_add_mod_noop, lemma_add_mod_noop_right,
    lemma_mul_mod_noop_left, lemma_small_mod, lemma_mod_bound,
};
use crate::power_of_two::{power_of_two, usize_range, lemma_pow2_div, lemma_mod_usize_range_then_mod, lemma_odd_inverse, lemma_mod_shift};
use crate::destination::{triangle, lemma_triangle_covers};

verus! {

/// The statistics of one lookup.
pub struct Stats {
    /// The number of groups the lookup stepped past.
    pub probe_length: usize,
    /// The number of slots whose tag matched but whose hash did not.
    pub false_positives: usize,
}

/// The bit of a stored hash that a probe sequence may set.
pub const OVERFLOW_BIT_MASK: u64 = 0x8000_0000_0000_0000;

/// The bits of a stored hash that identify the hash.
const STORED_MASK: u64 = 0x7FFF_FFFF_FFFF_FFFF;

/// The tag of `hash` for a tag of `tag_length` bits.
pub open spec fn search_tag_of(hash: u64, tag_length: usize) -> u8 {
    let top = (hash >> ((64 - tag_length) as u64)) as u8;
    if top > 1 { top } else { 1 }
}

/// The hash as a slot stores it.
pub open spec fn stored_hash_of(hash: u64) -> u64 {
    (hash & 0x3FFF_FFFF_FFFF_FFFFu64) | 0x4000_0000_0000_0000u64
}

/// The stored hashes of the slots of the group that starts at `start`.
pub open spec fn group_values(values: Seq<u64>, start: int, size: int) -> Seq<u64> {
    Seq::new(size as nat, |p: int| values[(start + p) % values.len() as int])
}

/// The tags of the slots of the group that starts at `start`.
pub open spec fn group_tags(tags: Seq<u8>, start: int, size: int) -> Seq<u8> {
    Seq::new(size as nat, |p: int| tags[(start + p) % tags.len() as int])
}

/// The overflow bits that `values` has set, `after` has set too.
pub open spec fn keeps_overflow_bits(values: Seq<u64>, after: Seq<u64>) -> bool {
    &&& after.len() == values.len()
    &&& forall|i: int| 0 <= i < values.len() && #[trigger] values[i] & 0x8000_0000_0000_0000u64 != 0
        ==> after[i] & 0x8000_0000_0000_0000u64 != 0
}

/// A way of stepping from group to group.
pub trait ProbeSeq {
    /// A table of `table_capacity` slots can be probed this way.
    spec fn spec_start_ok(table_capacity: usize) -> bool;

    /// The first slot of the first group and the initial state.
    spec fn spec_start(hash: u64, table_capacity: usize) -> (usize, usize);

    /// The first slot of the next group and the state after the step.
    spec fn spec_next(previous: usize, state: usize, table_capacity: usize) -> (usize, usize);

    /// What stepping past a group leaves in its stored hashes.
    spec fn spec_passed(group_values: Seq<u64>) -> bool;

    /// Whether a lookup may stop at a group with these tags and stored
    /// hashes.
    spec fn spec_can_stop(tags: Seq<u8>, values: Seq<u64>) -> bool;

    /// Probing stays inside the table.
    proof fn lemma_in_table(hash: u64, previous: usize, state: usize, table_capacity: usize)
        requires
            Self::spec_start_ok(table_capacity),
        ensures
            Self::spec_start(hash, table_capacity).0 < table_capacity,
            previous < table_capacity ==> Self::spec_next(previous, state, table_capacity).0 < table_capacity,
    ;

    /// Setting more overflow bits keeps a group stepped past.
    proof fn lemma_passed_kept(values: Seq<u64>, after: Seq<u64>)
        requires
            keeps_overflow_bits(values, after),
            Self::spec_passed(values),
        ensures
            Self::spec_passed(after),
    ;

    /// A lookup does not stop at a full group that an insertion stepped past.
    proof fn lemma_full_group_continues(tags: Seq<u8>, values: Seq<u64>)
        requires
            tags.len() == values.len(),
            tags.len() > 0,
            forall|i: int| 0 <= i < tags.len() ==> #[trigger] tags[i] != 0,
            Self::spec_passed(values),
        ensures
            !Self::spec_can_stop(tags, values),
    ;

    /// A lookup may stop at a group of empty slots that no insertion has
    /// stepped past.
    proof fn lemma_empty_group_stops(tags: Seq<u8>, values: Seq<u64>)
        requires
            tags.len() == values.len(),
            tags.len() > 0,
            forall|i: int| 0 <= i < tags.len() ==> #[trigger] tags[i] == 0 && values[i] == 0,
        ensures
            Self::spec_can_stop(tags, values),
    ;

    /// The first slot and the initial state.
    fn start(hash: u64, table_capacity: usize) -> (r: (usize, usize))
        requires
            Self::spec_start_ok(table_capacity),
        ensures
            r == Self::spec_start(hash, table_capacity),
    ;

    /// Steps to the next group.
    fn next(previous: usize, state: &mut usize, table_capacity: usize) -> (r: usize)
        requires
            Self::spec_start_ok(table_capacity),
        ensures
            (r, *final(state)) == Self::spec_next(previous, *old(state), table_capacity),
    ;

    /// Records that an insertion stepped past the group of slots
    /// `group_start..group_end`.
    fn probed_past_group(tags: &mut [u8], values: &mut [u64], group_start: usize, group_end: usize)
        requires
            group_start < group_end,
            old(values)@.len() > 0,
        ensures
            final(tags)@ == old(tags)@,
            final(values)@.len() == old(values)@.len(),
            forall|i: int| 0 <= i < old(values)@.len() ==> #[trigger] final(values)@[i] & 0x7FFF_FFFF_FFFF_FFFFu64
                == old(values)@[i] & 0x7FFF_FFFF_FFFF_FFFFu64,
            keeps_overflow_bits(old(values)@, final(values)@),
            Self::spec_passed(group_values(final(values)@, group_start as int, group_end - group_start)),
    ;

    /// Whether a lookup may stop at a group with these tags and stored
    /// hashes.
    fn can_stop(tags: &[u8], values: &[u64]) -> (r: bool)
        requires
            values@.len() > 0,
        ensures
            r == Self::spec_can_stop(tags@, values@),
    ;
}

/// Some tag of the group is empty.
pub open spec fn has_empty_tag(tags: Seq<u8>) -> bool {
    exists|i: int| 0 <= i < tags.len() && #[trigger] tags[i] == 0
}

fn any_empty_tag(tags: &[u8]) -> (r: bool)
    ensures
        r == has_empty_tag(tags@),
{
    let mut i: usize = 0;
    while i < tags.len()
        invariant
            i <= tags@.len(),
            forall|j: int| 0 <= j < i ==> #[trigger] tags@[j] != 0,
        decreases tags@.len() - i,
    {
        if tags[i] == 0 {
            return true;
        }
        i += 1;
    }
    false
}

proof fn lemma_overflow_bits(v: u64)
    by (bit_vector)
    ensures
        (v | 0x8000_0000_0000_0000u64) & 0x7FFF_FFFF_FFFF_FFFFu64 == v & 0x7FFF_FFFF_FFFF_FFFFu64,
        (v | 0x8000_0000_0000_0000u64) & 0x8000_0000_0000_0000u64 != 0,
        v & 0x8000_0000_0000_0000u64 != 0 ==> (v | 0x8000_0000_0000_0000u64) & 0x8000_0000_0000_0000u64 != 0,
        (v >> 56u64) < 256,
        ((v & 0x3FFF_FFFF_FFFF_FFFFu64) | 0x4000_0000_0000_0000u64) != 0,
        ((v & 0x3FFF_FFFF_FFFF_FFFFu64) | 0x4000_0000_0000_0000u64) & 0x7FFF_FFFF_FFFF_FFFFu64
            == (v & 0x3FFF_FFFF_FFFF_FFFFu64) | 0x4000_0000_0000_0000u64,
        ((v & 0x3FFF_FFFF_FFFF_FFFFu64) | 0x4000_0000_0000_0000u64) & 0x8000_0000_0000_0000u64 == 0,
        0u64 & 0x7FFF_FFFF_FFFF_FFFFu64 == 0,
        0u64 & 0x8000_0000_0000_0000u64 == 0,
{
}

/// A table of a power-of-two number of aligned groups has at least one
/// group, and the start of any of its groups lies inside it.
proof fn lemma_folly_chunks(table_capacity: usize, group_size: usize, x: int)
    requires
        group_size > 0,
        table_capacity as int % group_size as int == 0,
        power_of_two(table_capacity as int / group_size as int),
    ensures
        table_capacity as int / group_size as int > 0,
        0 <= x < table_capacity as int / group_size as int ==> x * group_size < table_capacity,
{
    let chunk_count = table_capacity as int / group_size as int;
    let g = group_size as int;
    vstd::arithmetic::div_mod::lemma_fundamental_div_mod(table_capacity as int, g);
    let k = choose|k: nat| vstd::arithmetic::power2::pow2(k) == chunk_count;
    vstd::arithmetic::power2::lemma_pow2_pos(k);
    if 0 <= x < chunk_count {
        assert(x * g < table_capacity) by (nonlinear_arith)
            requires 0 <= x < chunk_count, table_capacity == g * chunk_count, g > 0;
    }
}

/// Steps over whole groups aligned to the group size: starts at the group
/// `hash % groups` and steps by `2 * top_byte + 1` groups. With the overflow
/// bit, an insertion that steps past a group sets bit 63 of its last stored
/// hash, and a lookup stops at the first group without it; otherwise a
/// lookup stops at the first group with an empty slot.
pub struct FollySeq<const GROUP_SIZE: usize, const USE_OVERFLOW_BIT: bool>;

impl<const GROUP_SIZE: usize, const USE_OVERFLOW_BIT: bool> ProbeSeq for FollySeq<GROUP_SIZE, USE_OVERFLOW_BIT> {
    open spec fn spec_start_ok(table_capacity: usize) -> bool {
        &&& GROUP_SIZE > 0
        &&& table_capacity as int % GROUP_SIZE as int == 0
        &&& power_of_two(table_capacity as int / GROUP_SIZE as int)
    }

    open spec fn spec_start(hash: u64, table_capacity: usize) -> (usize, usize) {
        let chunk_count = table_capacity as int / GROUP_SIZE as int;
        ((((hash as usize) as int % chunk_count) * GROUP_SIZE) as usize, (((hash >> 56u64) as int) * 2 + 1) as usize)
    }

    open spec fn spec_next(previous: usize, state: usize, table_capacity: usize) -> (usize, usize) {
        let chunk_count = table_capacity as int / GROUP_SIZE as int;
        let advanced = vstd::wrapping::usize_specs::wrapping_add((previous as int / GROUP_SIZE as int) as usize, state);
        (((advanced as int % chunk_count) * GROUP_SIZE) as usize, state)
    }

    open spec fn spec_passed(group_values: Seq<u64>) -> bool {
        USE_OVERFLOW_BIT ==> group_values.len() > 0 && group_values.last() & 0x8000_0000_0000_0000u64 != 0
    }

    open spec fn spec_can_stop(tags: Seq<u8>, values: Seq<u64>) -> bool {
        if USE_OVERFLOW_BIT {
            values.last() & 0x8000_0000_0000_0000u64 == 0
        } else {
            has_empty_tag(tags)
        }
    }

    proof fn lemma_in_table(hash: u64, previous: usize, state: usize, table_capacity: usize) {
        let chunk_count = table_capacity as int / GROUP_SIZE as int;
        lemma_folly_chunks(table_capacity, GROUP_SIZE, (hash as usize) as int % chunk_count);
        let advanced = vstd::wrapping::usize_specs::wrapping_add((previous as int / GROUP_SIZE as int) as usize, state);
        lemma_folly_chunks(table_capacity, GROUP_SIZE, advanced as int % chunk_count);
    }

    proof fn lemma_passed_kept(values: Seq<u64>, after: Seq<u64>) {
        if USE_OVERFLOW_BIT {
            assert(values[values.len() - 1] & 0x8000_0000_0000_0000u64 != 0);
        }
    }

    proof fn lemma_full_group_continues(tags: Seq<u8>, values: Seq<u64>) {
    }

    proof fn lemma_empty_group_stops(tags: Seq<u8>, values: Seq<u64>) {
        lemma_overflow_bits(0);
        assert(tags[0] == 0);
        let k = values.len() - 1;
        assert(tags[k] == 0 && values[k] == 0);
        assert(values.last() == 0);
    }

    fn start(hash: u64, table_capacity: usize) -> (r: (usize, usize)) {
        proof {
            Self::lemma_in_table(hash, 0, 0, table_capacity);
            lemma_overflow_bits(hash);
            lemma_folly_chunks(table_capacity, GROUP_SIZE, 0);
        }
        let chunk_count = table_capacity / GROUP_SIZE;
        proof {
            lemma_folly_chunks(table_capacity, GROUP_SIZE, (hash as usize) as int % chunk_count as int);
        }
        let top_8_bits = (hash >> 56u64) as usize;
        let stride = top_8_bits * 2 + 1;
        let chunk_index = hash as usize % chunk_count;
        (chunk_index * GROUP_SIZE, stride)
    }

    fn next(previous: usize, state: &mut usize, table_capacity: usize) -> (r: usize) {
        proof {
            lemma_folly_chunks(table_capacity, GROUP_SIZE, 0);
        }
        let chunk_count = table_capacity / GROUP_SIZE;
        let previous_chunk_index = previous / GROUP_SIZE;
        proof {
            let advanced = vstd::wrapping::usize_specs::wrapping_add(previous_chunk_index, *state);
            lemma_folly_chunks(table_capacity, GROUP_SIZE, advanced as int % chunk_count as int);
        }
        (previous_chunk_index.wrapping_add(*state) % chunk_count) * GROUP_SIZE
    }

    fn probed_past_group(tags: &mut [u8], values: &mut [u64], group_start: usize, group_end: usize) {
        if USE_OVERFLOW_BIT {
            // Mark that an insertion had to step past this group.
            let last = (group_end - 1) % values.len();
            let v = values[last];
            values[last] = v | OVERFLOW_BIT_MASK;
            proof {
                lemma_overflow_bits(v);
                let n = (group_end - group_start) as int;
                let s = group_values(values@, group_start as int, n);
                assert(group_start as int + (n - 1) == group_end - 1);
                assert(s.last() == values@[last as int]);
                assert forall|i: int| 0 <= i < old(values)@.len() && #[trigger] old(values)@[i] & 0x8000_0000_0000_0000u64 != 0
                    implies values@[i] & 0x8000_0000_0000_0000u64 != 0 by {
                    lemma_overflow_bits(old(values)@[i]);
                }
            }
        }
    }

    fn can_stop(tags: &[u8], values: &[u64]) -> (r: bool) {
        if USE_OVERFLOW_BIT {
            // Stop unless an insertion stepped past this group.
            (values[values.len() - 1] & OVERFLOW_BIT_MASK) == 0
        } else {
            any_empty_tag(tags)
        }
    }
}

/// Steps as SwissTable does: starts at slot `hash % capacity` and steps by
/// one more group each time; a lookup stops at a group with an empty slot.
pub struct TriangleProbe<const GROUP_SIZE: usize>;

impl<const GROUP_SIZE: usize> ProbeSeq for TriangleProbe<GROUP_SIZE> {
    open spec fn spec_start_ok(table_capacity: usize) -> bool {
        table_capacity > 0
    }

    open spec fn spec_start(hash: u64, table_capacity: usize) -> (usize, usize) {
        (((hash as usize) as int % table_capacity as int) as usize, 0)
    }

    open spec fn spec_next(previous: usize, state: usize, table_capacity: usize) -> (usize, usize) {
        let stride = vstd::wrapping::usize_specs::wrapping_add(state, GROUP_SIZE);
        ((vstd::wrapping::usize_specs::wrapping_add(previous, stride) as int % table_capacity as int) as usize, stride)
    }

    open spec fn spec_passed(group_values: Seq<u64>) -> bool {
        true
    }

    open spec fn spec_can_stop(tags: Seq<u8>, values: Seq<u64>) -> bool {
        has_empty_tag(tags)
    }

    proof fn lemma_in_table(hash: u64, previous: usize, state: usize, table_capacity: usize) {
    }

    proof fn lemma_passed_kept(values: Seq<u64>, after: Seq<u64>) {
    }

    proof fn lemma_full_group_continues(tags: Seq<u8>, values: Seq<u64>) {
    }

    proof fn lemma_empty_group_stops(tags: Seq<u8>, values: Seq<u64>) {
        lemma_overflow_bits(0);
        assert(tags[0] == 0);
        let k = values.len() - 1;
        assert(tags[k] == 0 && values[k] == 0);
        assert(values.last() == 0);
    }

    fn start(hash: u64, table_capacity: usize) -> (r: (usize, usize)) {
        let index = hash as usize % table_capacity;
        (index, 0)
    }

    fn next(previous: usize, stride: &mut usize, table_capacity: usize) -> (r: usize) {
        *stride = stride.wrapping_add(GROUP_SIZE);
        previous.wrapping_add(*stride) % table_capacity
    }

    fn probed_past_group(tags: &mut [u8], values: &mut [u64], group_start: usize, group_end: usize) {
    }

    fn can_stop(tags: &[u8], values: &[u64]) -> (r: bool) {
        any_empty_tag(tags)
    }
}

/// Starts at slot `hash % capacity` and steps by `2 * top_byte + 1` whole
/// groups; a lookup stops at a group with an empty slot.
pub struct Hybrid<const GROUP_SIZE: usize>;

/// The number of slots a hybrid probe with this state steps by.
pub open spec fn hybrid_stride(stride: usize, group_size: usize) -> usize {
    vstd::wrapping::usize_specs::wrapping_mul(stride, group_size)
}

impl<const GROUP_SIZE: usize> ProbeSeq for Hybrid<GROUP_SIZE> {
    open spec fn spec_start_ok(table_capacity: usize) -> bool {
        table_capacity > 0
    }

    open spec fn spec_start(hash: u64, table_capacity: usize) -> (usize, usize) {
        (((hash as usize) as int % table_capacity as int) as usize, (((hash >> 56u64) as int) * 2 + 1) as usize)
    }

    open spec fn spec_next(previous: usize, state: usize, table_capacity: usize) -> (usize, usize) {
        ((vstd::wrapping::usize_specs::wrapping_add(previous, hybrid_stride(state, GROUP_SIZE)) as int
            % table_capacity as int) as usize, state)
    }

    open spec fn spec_passed(group_values: Seq<u64>) -> bool {
        true
    }

    open spec fn spec_can_stop(tags: Seq<u8>, values: Seq<u64>) -> bool {
        has_empty_tag(tags)
    }

    proof fn lemma_in_table(hash: u64, previous: usize, state: usize, table_capacity: usize) {
    }

    proof fn lemma_passed_kept(values: Seq<u64>, after: Seq<u64>) {
    }

    proof fn lemma_full_group_continues(tags: Seq<u8>, values: Seq<u64>) {
    }

    proof fn lemma_empty_group_stops(tags: Seq<u8>, values: Seq<u64>) {
        lemma_overflow_bits(0);
        assert(tags[0] == 0);
        let k = values.len() - 1;
        assert(tags[k] == 0 && values[k] == 0);
        assert(values.last() == 0);
    }

    fn start(hash: u64, table_capacity: usize) -> (r: (usize, usize)) {
        proof {
            lemma_overflow_bits(hash);
        }
        let stride = ((hash >> 56u64) as usize) * 2 + 1;
        let index = hash as usize % table_capacity;
        (index, stride)
    }

    fn next(previous: usize, stride: &mut usize, table_capacity: usize) -> (r: usize) {
        previous.wrapping_add(stride.wrapping_mul(GROUP_SIZE)) % table_capacity
    }

    fn probed_past_group(tags: &mut [u8], values: &mut [u64], group_start: usize, group_end: usize) {
    }

    fn can_stop(tags: &[u8], values: &[u64]) -> (r: bool) {
        any_empty_tag(tags)
    }
}


/// The stride of a hybrid probe for `hash`: odd, and below 512.
proof fn lemma_hybrid_stride<const G: usize>(hash: u64, table_capacity: usize)
    ensures
        Hybrid::<G>::spec_start(hash, table_capacity).1 as int == (hash >> 56u64) as int * 2 + 1,
        (hash >> 56u64) < 256,
{
    lemma_overflow_bits(hash);
}

/// The first slot of the `k`th group of a hybrid probe is the first slot of
/// its first group plus `k` strides of whole groups, wrapped round the table.
proof fn lemma_hybrid_position<const G: usize>(hash: u64, table_capacity: usize, k: nat)
    requires
        power_of_two(table_capacity as int),
    ensures
        probe_position::<Hybrid<G>>(hash, table_capacity, k).1 == Hybrid::<G>::spec_start(hash, table_capacity).1,
        probe_position::<Hybrid<G>>(hash, table_capacity, k).0 as int == ((hash as usize) as int % table_capacity as int
            + k * (Hybrid::<G>::spec_start(hash, table_capacity).1 as int * G as int)) % table_capacity as int,
    decreases k,
{
    let cap = table_capacity as int;
    lemma_mod_usize_range_then_mod(0, cap);
    let st = (hash as usize) as int % cap;
    let s = Hybrid::<G>::spec_start(hash, table_capacity).1;
    let sg = s as int * G as int;
    lemma_mod_bound((hash as usize) as int, cap);
    if k == 0 {
        lemma_small_mod(st as nat, cap as nat);
        assert(st + 0 * sg == st) by (nonlinear_arith);
    } else {
        lemma_hybrid_position::<G>(hash, table_capacity, (k - 1) as nat);
        let prev = probe_position::<Hybrid<G>>(hash, table_capacity, (k - 1) as nat).0;
        let x = st + (k - 1) * sg;
        assert(prev as int == x % cap);
        let w = hybrid_stride(s, G);
        let wa = vstd::wrapping::usize_specs::wrapping_add(prev, w);
        // The wrapped sum leaves the same remainder as the plain one.
        assert(wa as int == (prev as int + w as int) % usize_range()) by {
            if prev as int + w as int > usize::MAX {
                vstd::arithmetic::div_mod::lemma_fundamental_div_mod_converse(
                    prev as int + w as int, usize_range(), 1, prev as int + w as int - usize_range());
            } else {
                lemma_small_mod((prev as int + w as int) as nat, usize_range() as nat);
            }
        }
        lemma_mod_usize_range_then_mod(prev as int + w as int, cap);
        assert(w as int == sg % usize_range());
        lemma_mod_usize_range_then_mod(sg, cap);
        lemma_add_mod_noop(prev as int, w as int, cap);
        lemma_add_mod_noop(prev as int, sg, cap);
        lemma_add_mod_noop_right(sg, x, cap);
        assert(x + sg == st + k * sg) by (nonlinear_arith)
            requires x == st + (k - 1) * sg;
        assert((prev as int % cap) == prev as int) by {
            lemma_mod_bound(x, cap);
            lemma_small_mod(prev as nat, cap as nat);
        }
        assert((sg + prev as int) % cap == (prev as int + sg) % cap);
    }
}

/// The slot at offset `o` of the `k`th group that a probe for `hash`
/// visits.
pub open spec fn probe_slot<P: ProbeSeq>(hash: u64, table_capacity: usize, k: nat, o: int) -> int {
    (probe_position::<P>(hash, table_capacity, k).0 as int + o) % table_capacity as int
}

/// A triangular probe of a table whose slot count is a power of two starts
/// its `k`th group `k(k+1)/2` groups past `hash % capacity`, around the
/// table: each step moves one group further than the step before.
pub proof fn lemma_triangle_position<const G: usize>(hash: u64, table_capacity: usize, k: nat)
    requires
        power_of_two(table_capacity as int),
    ensures
        probe_position::<TriangleProbe<G>>(hash, table_capacity, k).0 as int
            == ((hash as usize) as int % table_capacity as int + G as int * triangle(k)) % table_capacity as int,
        probe_position::<TriangleProbe<G>>(hash, table_capacity, k).1 as int % table_capacity as int
            == (k * G as int) % table_capacity as int,
    decreases k,
{
    let cap = table_capacity as int;
    lemma_mod_usize_range_then_mod(0, cap);
    let st = (hash as usize) as int % cap;
    let g = G as int;
    lemma_mod_bound((hash as usize) as int, cap);
    if k == 0 {
        lemma_small_mod(st as nat, cap as nat);
        assert(triangle(0) == 0);
        assert(g * triangle(0) == 0) by (nonlinear_arith)
            requires triangle(0) == 0;
        assert(0 * g == 0) by (nonlinear_arith);
        lemma_small_mod(0, cap as nat);
    } else {
        lemma_triangle_position::<G>(hash, table_capacity, (k - 1) as nat);
        let prev = probe_position::<TriangleProbe<G>>(hash, table_capacity, (k - 1) as nat);
        let stride = vstd::wrapping::usize_specs::wrapping_add(prev.1, G);
        crate::probe_sequence::lemma_wrapping_add_mod(prev.1, G, cap);
        lemma_add_mod_noop(prev.1 as int, g, cap);
        lemma_add_mod_noop((k - 1) * g, g, cap);
        assert((k - 1) * g + g == k * g) by (nonlinear_arith);
        let x = st + g * triangle((k - 1) as nat);
        crate::probe_sequence::lemma_wrapping_add_mod(prev.0, stride, cap);
        lemma_add_mod_noop(prev.0 as int, stride as int, cap);
        lemma_add_mod_noop(x, k * g, cap);
        assert((prev.0 as int % cap) == x % cap) by {
            lemma_mod_bound(x, cap);
            lemma_small_mod(prev.0 as nat, cap as nat);
        }
        assert(x + k * g == st + g * triangle(k)) by (nonlinear_arith)
            requires x == st + g * triangle((k - 1) as nat), triangle(k) == triangle((k - 1) as nat) + k;
        let next = probe_position::<TriangleProbe<G>>(hash, table_capacity, k);
        let wa = vstd::wrapping::usize_specs::wrapping_add(prev.0, stride);
        assert(next.0 as int == wa as int % cap) by {
            lemma_mod_bound(wa as int, cap);
        }
        assert(stride as int % cap == (k * g) % cap);
        assert(next.0 as int == ((prev.0 as int % cap) + (stride as int % cap)) % cap);
        assert(next.0 as int == ((x % cap) + ((k * g) % cap)) % cap);
    }
}

/// A triangular probe of a table whose slot count and group size are
/// powers of two reaches every slot of the table within as many groups as
/// the table has: an insertion is refused only by a full table.
pub proof fn lemma_triangle_probe_covers_table<const G: usize>(hash: u64, table_capacity: usize, slot: int)
    requires
        power_of_two(G as int),
        power_of_two(table_capacity as int),
        G <= table_capacity,
        0 <= slot < table_capacity,
    ensures
        exists|k: nat, o: int|
            k < table_capacity as int / G as int && 0 <= o < G && #[trigger] probe_slot::<TriangleProbe<G>>(hash, table_capacity, k, o) == slot,
{
    let cap = table_capacity as int;
    let g = G as int;
    lemma_pow2_div(cap, g);
    let chunks = cap / g;
    let st = (hash as usize) as int % cap;
    lemma_mod_bound((hash as usize) as int, cap);
    let d = (slot - st) % cap;
    lemma_mod_bound(slot - st, cap);
    let q = d / g;
    let o = d % g;
    lemma_fundamental_div_mod(d, g);
    lemma_mod_bound(d, g);
    assert(0 <= q < chunks) by (nonlinear_arith)
        requires
            d == g * q + o,
            0 <= o < g,
            0 <= d < cap,
            cap == chunks * g,
            g > 0;
    lemma_triangle_covers(chunks, q);
    let k = choose|k: nat| k < chunks && #[trigger] ((triangle(k) as int) % chunks) == q;
    let tk = triangle(k) as int;
    let t = tk / chunks;
    lemma_fundamental_div_mod(tk, chunks);
    assert(g * tk == q * g + t * cap) by (nonlinear_arith)
        requires
            tk == chunks * t + q,
            cap == chunks * g;
    lemma_triangle_position::<G>(hash, table_capacity, k);
    let pos = probe_position::<TriangleProbe<G>>(hash, table_capacity, k).0 as int;
    lemma_add_mod_noop_right(o, st + g * tk, cap);
    assert(o + (st + g * tk) == (st + d) + t * cap) by (nonlinear_arith)
        requires
            g * tk == q * g + t * cap,
            d == g * q + o;
    lemma_mod_shift(st + d, t, cap);
    lemma_add_mod_noop_right(st, slot - st, cap);
    lemma_small_mod(slot as nat, cap as nat);
    assert((pos + o) % cap == (o + pos) % cap);
    assert(probe_slot::<TriangleProbe<G>>(hash, table_capacity, k, o) == slot);
}

impl<const GROUP_SIZE: usize, const TAG_LENGTH: usize> Table<GROUP_SIZE, TAG_LENGTH, TriangleProbe<GROUP_SIZE>> {
    /// A triangular probe finds every group it visits full only in a table
    /// that holds as many hashes as it has slots: so an insertion of a new
    /// hash is refused exactly when the table is full.
    pub proof fn lemma_refused_only_when_full(&self, hash: u64)
        requires
            self.wf(),
            power_of_two(GROUP_SIZE as int),
        ensures
            self.probe_full(hash) <==> self@.len() == self.spec_capacity(),
    {
        self.lemma_group_count();
        self.lemma_hash_count();
        let cap = self.spec_capacity();
        let range = vstd::set_lib::set_int_range(0, cap);
        vstd::set_lib::lemma_int_range(0, cap);
        assert(GROUP_SIZE <= cap) by (nonlinear_arith)
            requires self.group_count() >= 1, self.group_count() * GROUP_SIZE == cap, GROUP_SIZE > 0;
        if self.probe_full(hash) {
            assert forall|i: int| #[trigger] range.contains(i) implies self.occupied_slots().contains(i) by {
                lemma_triangle_probe_covers_table::<GROUP_SIZE>(hash, cap as usize, i);
                let (k, o) = choose|k: nat, o: int| k < cap / GROUP_SIZE as int && 0 <= o < GROUP_SIZE
                    && #[trigger] probe_slot::<TriangleProbe<GROUP_SIZE>>(hash, cap as usize, k, o) == i;
                let start = probe_position::<TriangleProbe<GROUP_SIZE>>(hash, cap as usize, k).0 as int;
                assert(self.group_full(start));
                assert(self.slot(start, o) == i);
                assert(self.tags@[self.slot(start, o)] != 0);
            }
            assert(self.occupied_slots() =~= range);
        }
        if self@.len() == cap {
            assert(self.occupied_slots().subset_of(range));
            vstd::set_lib::lemma_subset_equality(self.occupied_slots(), range);
            assert forall|j: nat| j < self.group_count() implies #[trigger] self.group_full(
                probe_position::<TriangleProbe<GROUP_SIZE>>(hash, cap as usize, j).0 as int) by {
                let start = probe_position::<TriangleProbe<GROUP_SIZE>>(hash, cap as usize, j).0 as int;
                assert forall|p: int| 0 <= p < GROUP_SIZE implies #[trigger] self.tags@[self.slot(start, p)] != 0 by {
                    vstd::arithmetic::div_mod::lemma_mod_bound(start + p, cap);
                    assert(range.contains(self.slot(start, p)));
                }
            }
        }
    }
}

/// A hybrid probe of a table whose slot count and group size are powers of
/// two reaches every slot of the table within as many groups as the table
/// has.
pub proof fn lemma_hybrid_probe_covers_table<const G: usize>(hash: u64, table_capacity: usize, slot: int)
    requires
        power_of_two(G as int),
        power_of_two(table_capacity as int),
        G <= table_capacity,
        0 <= slot < table_capacity,
    ensures
        exists|k: nat, o: int|
            k < table_capacity as int / G as int && 0 <= o < G && #[trigger] probe_slot::<Hybrid<G>>(hash, table_capacity, k, o) == slot,
{
    let cap = table_capacity as int;
    let g = G as int;
    lemma_pow2_div(cap, g);
    let chunks = cap / g;
    let e = choose|e: nat| #[trigger] pow2(e) == chunks;
    vstd::arithmetic::power2::lemma_pow2_pos(e);
    lemma_hybrid_stride::<G>(hash, table_capacity);
    let s = Hybrid::<G>::spec_start(hash, table_capacity).1 as int;
    let st = (hash as usize) as int % cap;
    lemma_mod_bound((hash as usize) as int, cap);
    // The offset of the slot from the first slot, in whole groups and the rest.
    let d = (slot - st) % cap;
    lemma_mod_bound(slot - st, cap);
    let q = d / g;
    let o = d % g;
    lemma_fundamental_div_mod(d, g);
    lemma_mod_bound(d, g);
    assert(0 <= q < chunks) by (nonlinear_arith)
        requires
            d == g * q + o,
            0 <= o < g,
            0 <= d < cap,
            cap == chunks * g,
            g > 0;
    // The step count whose strides add up to `q` groups.
    let (u, m) = lemma_odd_inverse(s, e);
    let k = (q * u) % chunks;
    lemma_mod_bound(q * u, chunks);
    lemma_mul_mod_noop_left(q * u, s, chunks);
    assert(q * u * s == q + (q * m) * chunks) by (nonlinear_arith)
        requires
            s * u == 1 + m * chunks;
    lemma_mod_shift(q, q * m, chunks);
    lemma_small_mod(q as nat, chunks as nat);
    assert((k * s) % chunks == q);
    let t = (k * s) / chunks;
    lemma_fundamental_div_mod(k * s, chunks);
    assert(k * (s * g) == q * g + t * cap) by (nonlinear_arith)
        requires
            k * s == chunks * t + q,
            cap == chunks * g;
    lemma_hybrid_position::<G>(hash, table_capacity, k as nat);
    let pos = probe_position::<Hybrid<G>>(hash, table_capacity, k as nat).0 as int;
    assert(pos == (st + k * (s * g)) % cap);
    lemma_add_mod_noop_right(o, st + k * (s * g), cap);
    assert(o + (st + k * (s * g)) == (st + d) + t * cap) by (nonlinear_arith)
        requires
            k * (s * g) == q * g + t * cap,
            d == g * q + o;
    lemma_mod_shift(st + d, t, cap);
    lemma_add_mod_noop_right(st, slot - st, cap);
    lemma_small_mod(slot as nat, cap as nat);
    assert(probe_slot::<Hybrid<G>>(hash, table_capacity, k as nat, o) == slot);
}

/// The first slot of the group and the probe state after `step` steps of a
/// probe for `hash` in a table of `table_capacity` slots.
pub open spec fn probe_position<P: ProbeSeq>(hash: u64, table_capacity: usize, step: nat) -> (usize, usize)
    decreases step,
{
    if step == 0 {
        P::spec_start(hash, table_capacity)
    } else {
        let previous = probe_position::<P>(hash, table_capacity, (step - 1) as nat);
        P::spec_next(previous.0, previous.1, table_capacity)
    }
}

/// The hash that a slot with this tag and stored hash holds, for a tag of
/// seven or eight bits.
pub open spec fn decode_hash(tag: u8, stored: u64, tag_length: usize) -> u64 {
    if tag >= 2 {
        ((tag as u64) << ((64 - tag_length) as u64)) | (stored & (0xFFFF_FFFF_FFFF_FFFFu64 >> (tag_length as u64)))
    } else {
        stored & 0x3FFF_FFFF_FFFF_FFFFu64
    }
}

/// A slot with this tag and stored hash holds `hash`.
pub open spec fn slot_holds(tag: u8, stored: u64, hash: u64, tag_length: usize) -> bool {
    tag == search_tag_of(hash, tag_length) && stored & 0x7FFF_FFFF_FFFF_FFFFu64 == stored_hash_of(hash)
}

proof fn lemma_decode(tag: u8, stored: u64, hash: u64, tag_length: u64)
    by (bit_vector)
    requires
        tag_length == 7 || tag_length == 8,
        tag == (if ((hash >> ((64 - tag_length) as u64)) as u8) > 1 { (hash >> ((64 - tag_length) as u64)) as u8 } else { 1u8 }),
        stored & 0x7FFF_FFFF_FFFF_FFFFu64 == (hash & 0x3FFF_FFFF_FFFF_FFFFu64) | 0x4000_0000_0000_0000u64,
    ensures
        (if tag >= 2 {
            ((tag as u64) << ((64 - tag_length) as u64)) | ((stored & 0x7FFF_FFFF_FFFF_FFFFu64) & (0xFFFF_FFFF_FFFF_FFFFu64 >> tag_length))
        } else {
            (stored & 0x7FFF_FFFF_FFFF_FFFFu64) & 0x3FFF_FFFF_FFFF_FFFFu64
        }) == hash,
{
}

/// The tag of a hash is never the empty tag.
proof fn lemma_search_tag_nonzero(hash: u64, tag_length: usize)
    ensures
        search_tag_of(hash, tag_length) != 0,
{
}

/// Masking off the overflow bit twice is masking it off once.
proof fn lemma_mask_idempotent(v: u64)
    by (bit_vector)
    ensures
        (v & 0x7FFF_FFFF_FFFF_FFFFu64) & 0x7FFF_FFFF_FFFF_FFFFu64 == v & 0x7FFF_FFFF_FFFF_FFFFu64,
{
}

/// A table of hashes with groups of `GROUP_SIZE` slots, tags of `TAG_LENGTH`
/// bits and the probe sequence `P`.
pub struct Table<const GROUP_SIZE: usize, const TAG_LENGTH: usize, P> {
    tags: Vec<u8>,
    buckets: Vec<u64>,
    contents: Ghost<Set<u64>>,
    locations: Ghost<Map<u64, (int, nat, int)>>,
    _phantom: core::marker::PhantomData<P>,
}

impl<const GROUP_SIZE: usize, const TAG_LENGTH: usize, P> View for Table<GROUP_SIZE, TAG_LENGTH, P> {
    type V = Set<u64>;

    closed spec fn view(&self) -> Set<u64> {
        self.contents@
    }
}

impl<const GROUP_SIZE: usize, const TAG_LENGTH: usize, P: ProbeSeq> Table<GROUP_SIZE, TAG_LENGTH, P> {
    /// The number of slots.
    pub closed spec fn spec_capacity(&self) -> int {
        self.tags@.len() as int
    }

    /// The number of groups a probe visits at most.
    pub open spec fn group_count(&self) -> int {
        self.spec_capacity() / GROUP_SIZE as int
    }

    spec fn slot(&self, start: int, p: int) -> int {
        (start + p) % self.spec_capacity()
    }

    /// The tag of every slot; 0 marks an empty slot.
    pub closed spec fn tags_view(&self) -> Seq<u8> {
        self.tags@
    }

    /// The stored hash of every slot, without the bit that records that an
    /// insertion stepped past its group.
    pub closed spec fn stored_view(&self) -> Seq<u64> {
        Seq::new(self.buckets@.len(), |i: int| self.buckets@[i] & 0x7FFF_FFFF_FFFF_FFFFu64)
    }

    /// No slot holds a tag, a stored hash or a mark of an insertion that
    /// stepped past: the table as it is made.
    pub closed spec fn untouched(&self) -> bool {
        forall|i: int| 0 <= i < self.spec_capacity() ==> #[trigger] self.tags@[i] == 0 && self.buckets@[i] == 0
    }

    /// A scan of a group none of whose first `p` positions carries the tag
    /// of `hash` counts no false positive.
    proof fn lemma_no_tag_no_false_positives(&self, start: int, hash: u64, p: int)
        requires
            forall|q: int| 0 <= q < p ==> self.tags@[#[trigger] self.slot(start, q)] != search_tag_of(hash, TAG_LENGTH),
        ensures
            self.scan_false_positives(start, hash, p) == 0,
        decreases p,
    {
        if p > 0 {
            self.lemma_no_tag_no_false_positives(start, hash, p - 1);
            assert(self.tags@[self.slot(start, p - 1)] != search_tag_of(hash, TAG_LENGTH));
            assert(!self.mismatch_at(start, p - 1, hash));
        }
    }

    /// The slots that hold a hash.
    spec fn occupied_slots(&self) -> Set<int> {
        Set::new(|i: int| 0 <= i < self.spec_capacity() && self.tags@[i] != 0)
    }

    /// The hash held in slot `i`.
    spec fn slot_hash(&self, i: int) -> u64 {
        decode_hash(self.tags@[i], self.buckets@[i] & 0x7FFF_FFFF_FFFF_FFFFu64, TAG_LENGTH)
    }

    /// Every slot of the group starting at slot `start` is occupied.
    pub closed spec fn group_full(&self, start: int) -> bool {
        forall|p: int| 0 <= p < GROUP_SIZE ==> #[trigger] self.tags@[self.slot(start, p)] != 0
    }

    spec fn group_passed(&self, start: int) -> bool {
        P::spec_passed(group_values(self.buckets@, start, GROUP_SIZE as int))
    }

    spec fn slot_ok(&self, i: int) -> bool {
        let tag = self.tags@[i];
        let stored = self.buckets@[i];
        if tag == 0 {
            stored & 0x7FFF_FFFF_FFFF_FFFFu64 == 0
        } else {
            let h = decode_hash(tag, stored & 0x7FFF_FFFF_FFFF_FFFFu64, TAG_LENGTH);
            &&& slot_holds(tag, stored, h, TAG_LENGTH)
            &&& self.contents@.contains(h)
            &&& self.locations@.contains_key(h)
            &&& self.locations@[h].0 == i
        }
    }

    spec fn key_ok(&self, h: u64) -> bool {
        let (i, n, p) = self.locations@[h];
        let cap = self.spec_capacity() as usize;
        &&& 0 <= i < self.spec_capacity()
        &&& n < self.group_count()
        &&& 0 <= p < GROUP_SIZE
        &&& self.slot(probe_position::<P>(h, cap, n).0 as int, p) == i
        &&& self.tags@[i] != 0
        &&& slot_holds(self.tags@[i], self.buckets@[i], h, TAG_LENGTH)
        &&& forall|j: nat| j < n ==> #[trigger] self.group_full(probe_position::<P>(h, cap, j).0 as int)
            && self.group_passed(probe_position::<P>(h, cap, j).0 as int)
    }

    /// Every group that an insertion of `hash` visits, as many as the table
    /// has groups, is full.
    pub closed spec fn probe_full(&self, hash: u64) -> bool {
        forall|j: nat| j < self.group_count() ==> #[trigger] self.group_full(
            probe_position::<P>(hash, self.spec_capacity() as usize, j).0 as int)
    }

    /// The table's internal invariant.
    pub closed spec fn wf(&self) -> bool {
        let cap = self.spec_capacity();
        &&& TAG_LENGTH == 7 || TAG_LENGTH == 8
        &&& GROUP_SIZE > 0
        &&& cap > 0
        &&& power_of_two(cap)
        &&& cap % GROUP_SIZE as int == 0
        &&& cap + GROUP_SIZE <= usize::MAX
        &&& self.buckets@.len() == cap
        &&& forall|i: int| 0 <= i < cap ==> #[trigger] self.slot_ok(i)
        &&& self.contents@ == self.locations@.dom()
        &&& forall|h: u64| #[trigger] self.locations@.contains_key(h) ==> self.key_ok(h)
    }

    /// The probe sequence can probe this table.
    pub open spec fn probe_ok(&self) -> bool {
        P::spec_start_ok(self.spec_capacity() as usize)
    }

    proof fn lemma_decodes(&self, i: int)
        requires
            self.wf(),
            0 <= i < self.spec_capacity(),
            self.tags@[i] != 0,
        ensures
            slot_holds(self.tags@[i], self.buckets@[i], decode_hash(self.tags@[i], self.buckets@[i] & 0x7FFF_FFFF_FFFF_FFFFu64, TAG_LENGTH), TAG_LENGTH),
            forall|h: u64| #[trigger] slot_holds(self.tags@[i], self.buckets@[i], h, TAG_LENGTH)
                ==> h == decode_hash(self.tags@[i], self.buckets@[i] & 0x7FFF_FFFF_FFFF_FFFFu64, TAG_LENGTH),
    {
        assert(self.slot_ok(i));
        assert forall|h: u64| #[trigger] slot_holds(self.tags@[i], self.buckets@[i], h, TAG_LENGTH)
            implies h == decode_hash(self.tags@[i], self.buckets@[i] & 0x7FFF_FFFF_FFFF_FFFFu64, TAG_LENGTH) by {
            lemma_decode(self.tags@[i], self.buckets@[i], h, TAG_LENGTH as u64);
        }
    }

    /// The slot that position `p` of the group at `start` falls into, for a
    /// group that starts inside the table.
    proof fn lemma_slot_in_range(&self, start: int, p: int)
        requires
            self.spec_capacity() > 0,
            0 <= start < self.spec_capacity(),
            0 <= p < self.spec_capacity(),
        ensures
            start + p < self.spec_capacity() ==> self.slot(start, p) == start + p,
            start + p >= self.spec_capacity() ==> self.slot(start, p) == start + p - self.spec_capacity(),
    {
        let cap = self.spec_capacity();
        if start + p < cap {
            vstd::arithmetic::div_mod::lemma_small_mod((start + p) as nat, cap as nat);
        } else {
            vstd::arithmetic::div_mod::lemma_mod_sub_multiples_vanish(start + p, cap);
            vstd::arithmetic::div_mod::lemma_small_mod((start + p - cap) as nat, cap as nat);
        }
    }

    /// Each held hash has a slot of its own and each occupied slot holds a
    /// hash of the set, so the set has as many hashes as there are occupied
    /// slots.
    proof fn lemma_hash_count(&self)
        requires
            self.wf(),
        ensures
            self@.finite(),
            self.occupied_slots().finite(),
            self@.len() == self.occupied_slots().len(),
            self@.len() <= self.spec_capacity(),
    {
        let occupied = self.occupied_slots();
        let range = vstd::set_lib::set_int_range(0, self.spec_capacity());
        let hash_of = |i: int| self.slot_hash(i);
        vstd::set_lib::lemma_int_range(0, self.spec_capacity());
        assert(occupied.subset_of(range));
        vstd::set_lib::lemma_len_subset(occupied, range);
        assert forall|i1: int, i2: int| occupied.contains(i1) && occupied.contains(i2) && #[trigger] hash_of(i1) == #[trigger] hash_of(i2)
            implies i1 == i2 by {
            assert(self.slot_ok(i1));
            assert(self.slot_ok(i2));
        }
        assert(vstd::relations::injective_on(hash_of, occupied));
        assert forall|h: u64| #[trigger] occupied.map(hash_of).contains(h) <==> self@.contains(h) by {
            if occupied.map(hash_of).contains(h) {
                let i = choose|i: int| occupied.contains(i) && hash_of(i) == h;
                assert(self.slot_ok(i));
            }
            if self@.contains(h) {
                assert(self.locations@.contains_key(h));
                assert(self.key_ok(h));
                let i = self.locations@[h].0;
                self.lemma_decodes(i);
                assert(occupied.contains(i));
                assert(hash_of(i) == h);
            }
        }
        assert(occupied.map(hash_of) =~= self@);
        vstd::set_lib::lemma_map_size(occupied, self@, hash_of);
    }

    /// An insertion is refused for a full probe only: the first group it
    /// probes is full, so the set holds at least a group's worth of hashes.
    proof fn lemma_full_probe_holds_a_group(&self, hash: u64)
        requires
            self.wf(),
            self.probe_ok(),
            self.probe_full(hash),
        ensures
            self@.len() >= GROUP_SIZE,
    {
        self.lemma_group_count();
        self.lemma_hash_count();
        let cap = self.spec_capacity();
        P::lemma_in_table(hash, 0, 0, cap as usize);
        let g = probe_position::<P>(hash, cap as usize, 0).0 as int;
        assert(self.group_full(g));
        assert(GROUP_SIZE <= cap) by (nonlinear_arith)
            requires self.group_count() >= 1, self.group_count() * GROUP_SIZE == cap, GROUP_SIZE > 0;
        let group = vstd::set_lib::set_int_range(0, GROUP_SIZE as int);
        let slot_of = |p: int| self.slot(g, p);
        vstd::set_lib::lemma_int_range(0, GROUP_SIZE as int);
        assert forall|p1: int, p2: int| group.contains(p1) && group.contains(p2) && #[trigger] slot_of(p1) == #[trigger] slot_of(p2)
            implies p1 == p2 by {
            self.lemma_slot_in_range(g, p1);
            self.lemma_slot_in_range(g, p2);
        }
        vstd::set_lib::lemma_map_size(group, group.map(slot_of), slot_of);
        assert forall|i: int| #[trigger] group.map(slot_of).contains(i) implies self.occupied_slots().contains(i) by {
            let p = choose|p: int| group.contains(p) && slot_of(p) == i;
            self.lemma_slot_in_range(g, p);
            assert(self.tags@[self.slot(g, p)] != 0);
        }
        vstd::set_lib::lemma_len_subset(group.map(slot_of), self.occupied_slots());
    }

    /// What a full probe is: every position of every group that an
    /// insertion of `hash` visits, as many as the table has groups, holds a
    /// tag.
    pub proof fn lemma_probe_full_iff(&self, hash: u64)
        requires
            self.wf(),
        ensures
            self.probe_full(hash) <==> forall|j: nat, p: int| j < self.group_count() && 0 <= p < GROUP_SIZE
                ==> self.tags_view()[#[trigger] probe_slot::<P>(hash, self.spec_capacity() as usize, j, p)] != 0,
    {
        let cap = self.spec_capacity() as usize;
        assert(cap as int == self.spec_capacity());
        if self.probe_full(hash) {
            assert forall|j: nat, p: int| j < self.group_count() && 0 <= p < GROUP_SIZE
                implies self.tags_view()[#[trigger] probe_slot::<P>(hash, cap, j, p)] != 0 by {
                assert(self.group_full(probe_position::<P>(hash, cap, j).0 as int));
                assert(self.tags@[self.slot(probe_position::<P>(hash, cap, j).0 as int, p)] != 0);
            }
        }
        if forall|j: nat, p: int| j < self.group_count() && 0 <= p < GROUP_SIZE
            ==> self.tags_view()[#[trigger] probe_slot::<P>(hash, cap, j, p)] != 0 {
            assert forall|j: nat| j < self.group_count() implies #[trigger] self.group_full(probe_position::<P>(hash, cap, j).0 as int) by {
                assert forall|p: int| 0 <= p < GROUP_SIZE implies #[trigger] self.tags@[self.slot(probe_position::<P>(hash, cap, j).0 as int, p)] != 0 by {
                    assert(self.tags_view()[probe_slot::<P>(hash, cap, j, p)] != 0);
                }
            }
        }
    }

    /// An empty table of `capacity` slots.
    pub fn new(capacity: usize) -> (r: Self)
        requires
            GROUP_SIZE > 0,
            capacity as int % GROUP_SIZE as int == 0,
            power_of_two(capacity as int),
            capacity + GROUP_SIZE <= usize::MAX,
            TAG_LENGTH == 7 || TAG_LENGTH == 8,
        ensures
            r.wf(),
            r@ == Set::<u64>::empty(),
            r.spec_capacity() == capacity,
            r.untouched(),
            r.tags_view() == Seq::new(capacity as nat, |i: int| 0u8),
            r.stored_view() == Seq::new(capacity as nat, |i: int| 0u64),
            forall|hash: u64| !#[trigger] r.probe_full(hash),
    {
        assert(capacity / GROUP_SIZE * GROUP_SIZE == capacity) by {
            vstd::arithmetic::div_mod::lemma_fundamental_div_mod(capacity as int, GROUP_SIZE as int);
        }
        let mut tags: Vec<u8> = Vec::new();
        let mut buckets: Vec<u64> = Vec::new();
        let mut i: usize = 0;
        while i < capacity
            invariant
                i <= capacity,
                tags@.len() == i,
                buckets@.len() == i,
                forall|j: int| 0 <= j < i ==> #[trigger] tags@[j] == 0,
                forall|j: int| 0 <= j < i ==> #[trigger] buckets@[j] == 0,
            decreases capacity - i,
        {
            tags.push(0);
            buckets.push(0);
            i += 1;
        }
        let r = Self {
            tags,
            buckets,
            contents: Ghost(Set::empty()),
            locations: Ghost(Map::empty()),
            _phantom: core::marker::PhantomData,
        };
        proof {
            assert(capacity > 0) by {
                let k = choose|k: nat| vstd::arithmetic::power2::pow2(k) == capacity as int;
                vstd::arithmetic::power2::lemma_pow2_pos(k);
            }
            assert forall|i: int| 0 <= i < r.spec_capacity() implies #[trigger] r.slot_ok(i) by {
                assert(r.tags@[i] == 0 && r.buckets@[i] == 0);
                lemma_overflow_bits(0);
            }
            assert(r.contents@ =~= r.locations@.dom());
            assert forall|k: int| 0 <= k < r.spec_capacity() implies #[trigger] r.tags@[k] == 0 && r.buckets@[k] == 0 by {
                assert(r.tags@[k] == 0);
                assert(r.buckets@[k] == 0);
            }
            assert(r.untouched());
            assert(r.tags_view() =~= Seq::new(capacity as nat, |i: int| 0u8));
            lemma_overflow_bits(0);
            assert forall|k: int| 0 <= k < r.spec_capacity() implies #[trigger] r.stored_view()[k] == 0u64 by {
                assert(r.slot_ok(k));
            }
            assert(r.stored_view() =~= Seq::new(capacity as nat, |i: int| 0u64));
            assert forall|hash: u64| !#[trigger] r.probe_full(hash) by {
                r.lemma_group_count();
                let start = probe_position::<P>(hash, capacity, 0).0 as int;
                vstd::arithmetic::div_mod::lemma_mod_bound(start, capacity as int);
                let i = r.slot(start, 0);
                assert(0 <= i < capacity);
                assert(r.tags@[i] == 0);
                assert(r.tags@[r.slot(start, 0)] == 0);
                assert(!r.group_full(start));
                assert(0 < r.group_count());
                assert(r.spec_capacity() as usize == capacity);
                assert(r.probe_full(hash) ==> r.group_full(probe_position::<P>(hash, r.spec_capacity() as usize, 0nat).0 as int));
            }
        }
        r
    }

    /// The number of slots.
    pub fn capacity(&self) -> (r: usize)
        ensures
            r == self.spec_capacity(),
    {
        self.tags.len()
    }

    /// The slot at offset `p` of the group that starts at slot `start` holds
    /// `hash`.
    spec fn holds_at(&self, start: int, p: int, hash: u64) -> bool {
        slot_holds(self.tags@[self.slot(start, p)], self.buckets@[self.slot(start, p)], hash, TAG_LENGTH)
    }

    proof fn lemma_group_count(&self)
        requires
            self.wf(),
        ensures
            self.group_count() >= 1,
            self.group_count() * GROUP_SIZE == self.spec_capacity(),
    {
        let cap = self.spec_capacity();
        let g = GROUP_SIZE as int;
        let gc = cap / g;
        vstd::arithmetic::div_mod::lemma_fundamental_div_mod(cap, g);
        assert(gc * g == cap) by (nonlinear_arith)
            requires cap == g * gc + 0;
        assert(gc >= 1) by (nonlinear_arith)
            requires cap == gc * g, cap > 0, g > 0;
    }

    /// Two tables with the same tags have the same full groups.
    proof fn lemma_same_tags(a: &Self, b: &Self)
        requires
            a.tags@ == b.tags@,
        ensures
            forall|s: int| #[trigger] a.group_full(s) == b.group_full(s),
    {
        assert forall|s: int| #[trigger] a.group_full(s) == b.group_full(s) by {
            if a.group_full(s) {
                assert forall|q: int| 0 <= q < GROUP_SIZE implies #[trigger] b.tags@[b.slot(s, q)] != 0 by {
                    assert(a.tags@[a.slot(s, q)] != 0);
                }
            }
            if b.group_full(s) {
                assert forall|q: int| 0 <= q < GROUP_SIZE implies #[trigger] a.tags@[a.slot(s, q)] != 0 by {
                    assert(b.tags@[b.slot(s, q)] != 0);
                }
            }
        }
    }

    /// A slot that holds `hash` shows that the table holds `hash`.
    proof fn lemma_holds_contained(&self, i: int, hash: u64)
        requires
            self.wf(),
            0 <= i < self.spec_capacity(),
            slot_holds(self.tags@[i], self.buckets@[i], hash, TAG_LENGTH),
        ensures
            self@.contains(hash),
            self.locations@[hash].0 == i,
    {
        lemma_search_tag_nonzero(hash, TAG_LENGTH);
        self.lemma_decodes(i);
        assert(self.slot_ok(i));
    }

    /// Whether a slot of the group at `group_start` holds `hash`.
    fn group_holds(&self, group_start: usize, Ghost(hash): Ghost<u64>, search_tag: u8, stored_hash: u64) -> (r: bool)
        requires
            self.wf(),
            group_start < self.spec_capacity(),
            search_tag == search_tag_of(hash, TAG_LENGTH),
            stored_hash == stored_hash_of(hash),
        ensures
            r == exists|p: int| 0 <= p < GROUP_SIZE && #[trigger] self.holds_at(group_start as int, p, hash),
    {
        let cap = self.tags.len();
        let mut p: usize = 0;
        while p < GROUP_SIZE
            invariant
                self.wf(),
                cap == self.spec_capacity(),
                group_start < cap,
                p <= GROUP_SIZE,
                search_tag == search_tag_of(hash, TAG_LENGTH),
                stored_hash == stored_hash_of(hash),
                forall|q: int| 0 <= q < p ==> !#[trigger] self.holds_at(group_start as int, q, hash),
            decreases GROUP_SIZE - p,
        {
            let inner = (group_start + p) % cap;
            if self.tags[inner] == search_tag && (self.buckets[inner] & STORED_MASK) == stored_hash {
                assert(self.holds_at(group_start as int, p as int, hash));
                return true;
            }
            p += 1;
        }
        false
    }

    /// The offset of an empty slot of the group at `group_start`, if it has
    /// one.
    fn empty_offset(&self, group_start: usize) -> (r: Option<usize>)
        requires
            self.wf(),
            group_start < self.spec_capacity(),
        ensures
            match r {
                Some(p) => p < GROUP_SIZE && self.tags@[self.slot(group_start as int, p as int)] == 0,
                None => self.group_full(group_start as int),
            },
    {
        let cap = self.tags.len();
        let mut p: usize = 0;
        while p < GROUP_SIZE
            invariant
                self.wf(),
                cap == self.spec_capacity(),
                group_start < cap,
                p <= GROUP_SIZE,
                forall|q: int| 0 <= q < p ==> #[trigger] self.tags@[self.slot(group_start as int, q)] != 0,
            decreases GROUP_SIZE - p,
        {
            let inner = (group_start + p) % cap;
            proof {
                assert(self.slot_ok(inner as int));
            }
            if self.tags[inner] == 0 && (self.buckets[inner] & STORED_MASK) == 0 {
                return Some(p);
            }
            p += 1;
        }
        None
    }

    /// Setting overflow bits, and nothing else, keeps the invariant and every
    /// group stepped past.
    proof fn lemma_marked(before: &Self, after: &Self)
        requires
            before.wf(),
            after.tags@ == before.tags@,
            after.contents@ == before.contents@,
            after.locations@ == before.locations@,
            after.buckets@.len() == before.buckets@.len(),
            forall|i: int| 0 <= i < before.buckets@.len() ==> #[trigger] after.buckets@[i] & 0x7FFF_FFFF_FFFF_FFFFu64
                == before.buckets@[i] & 0x7FFF_FFFF_FFFF_FFFFu64,
            keeps_overflow_bits(before.buckets@, after.buckets@),
        ensures
            after.wf(),
            forall|s: int| #[trigger] before.group_passed(s) ==> after.group_passed(s),
    {
        let cap = before.spec_capacity();
        Self::lemma_same_tags(before, after);
        assert forall|s: int| #[trigger] before.group_passed(s) implies after.group_passed(s) by {
            let gb = group_values(before.buckets@, s, GROUP_SIZE as int);
            let ga = group_values(after.buckets@, s, GROUP_SIZE as int);
            assert forall|k: int| 0 <= k < gb.len() && #[trigger] gb[k] & 0x8000_0000_0000_0000u64 != 0
                implies ga[k] & 0x8000_0000_0000_0000u64 != 0 by {
                let j = (s + k) % cap;
                assert(before.buckets@[j] & 0x8000_0000_0000_0000u64 != 0);
            }
            P::lemma_passed_kept(gb, ga);
        }
        assert forall|i: int| 0 <= i < cap implies #[trigger] after.slot_ok(i) by {
            assert(before.slot_ok(i));
            assert(after.buckets@[i] & 0x7FFF_FFFF_FFFF_FFFFu64 == before.buckets@[i] & 0x7FFF_FFFF_FFFF_FFFFu64);
            lemma_mask_idempotent(before.buckets@[i]);
            lemma_mask_idempotent(after.buckets@[i]);
        }
        assert forall|h: u64| #[trigger] after.locations@.contains_key(h) implies after.key_ok(h) by {
            assert(before.key_ok(h));
            let (i, n, p) = before.locations@[h];
            assert(after.buckets@[i] & 0x7FFF_FFFF_FFFF_FFFFu64 == before.buckets@[i] & 0x7FFF_FFFF_FFFF_FFFFu64);
            assert forall|j: nat| j < n implies #[trigger] after.group_full(probe_position::<P>(h, cap as usize, j).0 as int)
                && after.group_passed(probe_position::<P>(h, cap as usize, j).0 as int) by {
                assert(before.group_full(probe_position::<P>(h, cap as usize, j).0 as int));
                assert(before.group_passed(probe_position::<P>(h, cap as usize, j).0 as int));
            }
        }
    }

    /// Writing `hash` into the empty slot `i`, reached at offset `p` of the
    /// `n`th group of its probe after `n` full groups, keeps the invariant.
    proof fn lemma_filled(before: &Self, after: &Self, hash: u64, i: int, n: nat, p: int)
        requires
            before.wf(),
            !before@.contains(hash),
            0 <= i < before.spec_capacity(),
            before.tags@[i] == 0,
            n < before.group_count(),
            0 <= p < GROUP_SIZE,
            before.slot(probe_position::<P>(hash, before.spec_capacity() as usize, n).0 as int, p) == i,
            forall|j: nat| j < n ==> #[trigger] before.group_full(probe_position::<P>(hash, before.spec_capacity() as usize, j).0 as int)
                && before.group_passed(probe_position::<P>(hash, before.spec_capacity() as usize, j).0 as int),
            after.tags@ == before.tags@.update(i, search_tag_of(hash, TAG_LENGTH)),
            after.buckets@ == before.buckets@.update(i, stored_hash_of(hash)),
            after.contents@ == before.contents@.insert(hash),
            after.locations@ == before.locations@.insert(hash, (i, n, p)),
        ensures
            after.wf(),
            after.spec_capacity() == before.spec_capacity(),
            forall|s: int| #[trigger] before.group_full(s) ==> after.group_full(s),
    {
        let cap = before.spec_capacity();
        lemma_search_tag_nonzero(hash, TAG_LENGTH);
        lemma_overflow_bits(hash);
        assert forall|s: int| #[trigger] before.group_full(s) implies after.group_full(s)
            && group_values(after.buckets@, s, GROUP_SIZE as int) == group_values(before.buckets@, s, GROUP_SIZE as int) by {
            assert forall|q: int| 0 <= q < GROUP_SIZE implies #[trigger] after.tags@[after.slot(s, q)] != 0 by {
                assert(before.tags@[before.slot(s, q)] != 0);
            }
            assert forall|q: int| 0 <= q < GROUP_SIZE implies #[trigger] after.buckets@[(s + q) % cap] == before.buckets@[(s + q) % cap] by {
                assert(before.tags@[before.slot(s, q)] != 0);
            }
            assert(group_values(after.buckets@, s, GROUP_SIZE as int) =~= group_values(before.buckets@, s, GROUP_SIZE as int));
        }
        assert forall|k: int| 0 <= k < cap implies #[trigger] after.slot_ok(k) by {
            if k == i {
                lemma_decode(search_tag_of(hash, TAG_LENGTH), stored_hash_of(hash), hash, TAG_LENGTH as u64);
            } else {
                assert(before.slot_ok(k));
                if before.tags@[k] != 0 {
                    let h = decode_hash(before.tags@[k], before.buckets@[k] & 0x7FFF_FFFF_FFFF_FFFFu64, TAG_LENGTH);
                    assert(h != hash);
                }
            }
        }
        assert(after.contents@ =~= after.locations@.dom());
        assert forall|h: u64| #[trigger] after.locations@.contains_key(h) implies after.key_ok(h) by {
            if h == hash {
                assert forall|j: nat| j < n implies #[trigger] after.group_full(probe_position::<P>(h, cap as usize, j).0 as int)
                    && after.group_passed(probe_position::<P>(h, cap as usize, j).0 as int) by {
                    assert(before.group_full(probe_position::<P>(h, cap as usize, j).0 as int));
                }
            } else {
                assert(before.locations@.contains_key(h));
                assert(before.key_ok(h));
                let (i2, n2, p2) = before.locations@[h];
                assert(i2 != i);
                assert forall|j: nat| j < n2 implies #[trigger] after.group_full(probe_position::<P>(h, cap as usize, j).0 as int)
                    && after.group_passed(probe_position::<P>(h, cap as usize, j).0 as int) by {
                    assert(before.group_full(probe_position::<P>(h, cap as usize, j).0 as int));
                }
            }
        }
    }

    /// Inserts `hash`. Returns `false` when the table already holds it, or
    /// when every group that its probe visits, as many as the table has
    /// groups, is full.
    pub fn insert(&mut self, hash: u64) -> (r: bool)
        requires
            old(self).wf(),
            old(self).probe_ok(),
        ensures
            final(self).wf(),
            final(self).spec_capacity() == old(self).spec_capacity(),
            r == (!old(self)@.contains(hash) && !old(self).probe_full(hash)),
            final(self)@ == (if r { old(self)@.insert(hash) } else { old(self)@ }),
            forall|s: int| #[trigger] old(self).group_full(s) ==> final(self).group_full(s),
            final(self)@.finite(),
            final(self)@.len() <= final(self).spec_capacity(),
            old(self)@.len() < GROUP_SIZE ==> r == !old(self)@.contains(hash),
            !r ==> final(self).tags_view() == old(self).tags_view() && final(self).stored_view() == old(self).stored_view(),
            r ==> exists|i: int| 0 <= i < old(self).spec_capacity() && #[trigger] old(self).tags_view()[i] == 0
                && final(self).tags_view() == old(self).tags_view().update(i, search_tag_of(hash, TAG_LENGTH))
                && final(self).stored_view() == old(self).stored_view().update(i, stored_hash_of(hash)),
    {
        let cap = self.tags.len();
        proof {
            self.lemma_hash_count();
            if self.probe_full(hash) {
                self.lemma_full_probe_holds_a_group(hash);
            }
            self.lemma_group_count();
            lemma_overflow_bits(hash);
            lemma_search_tag_nonzero(hash, TAG_LENGTH);
        }
        let top = #[verifier::truncate] ((hash >> ((64 - TAG_LENGTH) as u64)) as u8);
        let search_tag = if top > 1 { top } else { 1 };
        let stored_hash = (hash & 0x3FFF_FFFF_FFFF_FFFFu64) | 0x4000_0000_0000_0000u64;
        let (mut index, mut state) = P::start(hash, cap);
        proof {
            P::lemma_in_table(hash, 0, 0, cap);
        }
        let mut attempts: usize = 0;
        let ghost start = *self;
        loop
            invariant
                self.wf(),
                self.probe_ok(),
                self.tags@ == start.tags@,
                self.stored_view() == start.stored_view(),
                start@.finite(),
                start@.len() <= start.spec_capacity(),
                self.contents@ == start.contents@,
                self.locations@ == start.locations@,
                start.wf(),
                start == *old(self),
                cap == self.spec_capacity(),
                search_tag == search_tag_of(hash, TAG_LENGTH),
                stored_hash == stored_hash_of(hash),
                attempts < self.group_count(),
                (index, state) == probe_position::<P>(hash, cap, attempts as nat),
                index < cap,
                forall|j: nat| j < attempts ==> #[trigger] self.group_full(probe_position::<P>(hash, cap, j).0 as int)
                    && self.group_passed(probe_position::<P>(hash, cap, j).0 as int),
                start@.contains(hash) ==> attempts <= self.locations@[hash].1,
            decreases self.group_count() - attempts,
        {
            let group_start = index;
            let group_end = group_start + GROUP_SIZE;
            if self.group_holds(group_start, Ghost(hash), search_tag, stored_hash) {
                proof {
                    let p = choose|p: int| 0 <= p < GROUP_SIZE && #[trigger] self.holds_at(group_start as int, p, hash);
                    self.lemma_holds_contained(self.slot(group_start as int, p), hash);
                    Self::lemma_same_tags(&start, self);
                }
                return false;
            }
            proof {
                if start@.contains(hash) {
                    assert(self.key_ok(hash));
                    let (i, n, p) = self.locations@[hash];
                    if n == attempts {
                        assert(self.holds_at(group_start as int, p, hash));
                    }
                }
            }
            match self.empty_offset(group_start) {
                Some(p) => {
                    let inner = (group_start + p) % cap;
                    proof {
                        if start@.contains(hash) {
                            assert(self.key_ok(hash));
                        }
                        assert(!self.group_full(group_start as int));
                        Self::lemma_same_tags(&start, self);
                        assert(!start.probe_full(hash)) by {
                            assert(!start.group_full(probe_position::<P>(hash, cap, attempts as nat).0 as int));
                        }
                    }
                    let ghost before = *self;
                    self.tags.set(inner, search_tag);
                    self.buckets.set(inner, stored_hash);
                    self.contents = Ghost(self.contents@.insert(hash));
                    self.locations = Ghost(self.locations@.insert(hash, (inner as int, attempts as nat, p as int)));
                    proof {
                        Self::lemma_filled(&before, self, hash, inner as int, attempts as nat, p as int);
                        assert forall|s: int| #[trigger] start.group_full(s) implies self.group_full(s) by {
                            assert(before.group_full(s));
                        }
                        self.lemma_hash_count();
                        lemma_overflow_bits(hash);
                        assert(self.tags_view() =~= start.tags_view().update(inner as int, search_tag));
                        assert(self.stored_view() =~= start.stored_view().update(inner as int, stored_hash_of(hash))) by {
                            assert forall|k: int| 0 <= k < cap implies #[trigger] self.stored_view()[k]
                                == start.stored_view().update(inner as int, stored_hash_of(hash))[k] by {
                                if k != inner as int {
                                    assert(self.buckets@[k] == before.buckets@[k]);
                                    assert(before.stored_view()[k] == start.stored_view()[k]);
                                }
                            }
                        }
                        assert(start.tags_view()[inner as int] == 0);
                    }
                    return true;
                }
                None => {}
            }
            proof {
                if start@.contains(hash) {
                    assert(self.key_ok(hash));
                }
            }
            attempts += 1;
            if attempts >= cap / GROUP_SIZE {
                proof {
                    Self::lemma_same_tags(&start, self);
                    assert forall|j: nat| j < start.group_count() implies #[trigger] start.group_full(
                        probe_position::<P>(hash, cap, j).0 as int) by {
                        if j < attempts - 1 {
                            assert(self.group_full(probe_position::<P>(hash, cap, j).0 as int));
                        }
                    }
                    assert(start.probe_ok());
                    start.lemma_full_probe_holds_a_group(hash);
                }
                return false;
            }
            let ghost before = *self;
            P::probed_past_group(self.tags.as_mut_slice(), self.buckets.as_mut_slice(), group_start, group_end);
            proof {
                assert(self.stored_view() =~= before.stored_view()) by {
                    assert forall|k: int| 0 <= k < cap implies #[trigger] self.stored_view()[k] == before.stored_view()[k] by {
                        assert(self.buckets@[k] & 0x7FFF_FFFF_FFFF_FFFFu64 == before.buckets@[k] & 0x7FFF_FFFF_FFFF_FFFFu64);
                    }
                }
                Self::lemma_marked(&before, self);
                Self::lemma_same_tags(&before, self);
                assert forall|j: nat| j < attempts implies #[trigger] self.group_full(probe_position::<P>(hash, cap, j).0 as int)
                    && self.group_passed(probe_position::<P>(hash, cap, j).0 as int) by {
                    if j < attempts - 1 {
                        assert(before.group_full(probe_position::<P>(hash, cap, j).0 as int));
                        assert(before.group_passed(probe_position::<P>(hash, cap, j).0 as int));
                    } else {
                        assert(before.group_full(group_start as int));
                        assert(self.group_passed(group_start as int));
                    }
                }
                P::lemma_in_table(hash, index, state, cap);
            }
            index = P::next(index, &mut state, cap);
        }
    }

    /// Filling slots keeps every probe that was full, full.
    proof fn lemma_probe_full_kept(a: &Self, b: &Self, hash: u64)
        requires
            a.spec_capacity() == b.spec_capacity(),
            forall|s: int| #[trigger] a.group_full(s) ==> b.group_full(s),
            a.probe_full(hash),
        ensures
            b.probe_full(hash),
    {
        let cap = a.spec_capacity() as usize;
        assert forall|j: nat| j < b.group_count() implies #[trigger] b.group_full(probe_position::<P>(hash, cap, j).0 as int) by {
            assert(a.group_full(probe_position::<P>(hash, cap, j).0 as int));
        }
    }

    /// A slot of the group at `start` holds `hash`.
    spec fn group_has(&self, start: int, hash: u64) -> bool {
        exists|p: int| 0 <= p < GROUP_SIZE && #[trigger] self.holds_at(start, p, hash)
    }

    /// A lookup of `hash` may stop at the group that starts at `start`.
    spec fn stops_at(&self, start: int) -> bool {
        P::spec_can_stop(group_tags(self.tags@, start, GROUP_SIZE as int), group_values(self.buckets@, start, GROUP_SIZE as int))
    }

    /// The number of groups that a lookup of `hash`, at step `j` of its
    /// probe, steps past before it stops.
    pub closed spec fn lookup_steps(&self, hash: u64, j: nat) -> nat
        decreases self.group_count() - j,
    {
        let start = probe_position::<P>(hash, self.spec_capacity() as usize, j).0 as int;
        if j + 1 >= self.group_count() || self.group_has(start, hash) || self.stops_at(start) {
            j
        } else {
            self.lookup_steps(hash, j + 1)
        }
    }

    /// Position `p` of the group at `start` carries the tag of `hash` but
    /// not its stored hash.
    spec fn mismatch_at(&self, start: int, p: int, hash: u64) -> bool {
        &&& self.tags@[self.slot(start, p)] == search_tag_of(hash, TAG_LENGTH)
        &&& self.buckets@[self.slot(start, p)] & 0x7FFF_FFFF_FFFF_FFFFu64 != stored_hash_of(hash)
    }

    /// The number of the first `p` positions of the group at `start` that
    /// carry the tag of `hash` but not its stored hash and come before the
    /// first position that holds `hash`.
    pub closed spec fn scan_false_positives(&self, start: int, hash: u64, p: int) -> nat
        decreases p,
    {
        if p <= 0 {
            0
        } else {
            let before = self.scan_false_positives(start, hash, p - 1);
            if exists|q: int| 0 <= q < p - 1 && #[trigger] self.holds_at(start, q, hash) {
                before
            } else {
                before + if self.mismatch_at(start, p - 1, hash) { 1nat } else { 0nat }
            }
        }
    }

    /// Once a position holds `hash`, the count of the scan stays put.
    proof fn lemma_scan_false_positives_stay(&self, start: int, hash: u64, p: int, k: int)
        requires
            0 <= p < k,
            self.holds_at(start, p, hash),
        ensures
            self.scan_false_positives(start, hash, k) == self.scan_false_positives(start, hash, p),
        decreases k - p,
    {
        if k > p + 1 {
            self.lemma_scan_false_positives_stay(start, hash, p, k - 1);
            assert(self.holds_at(start, p, hash));
        } else {
            if exists|q: int| 0 <= q < p && #[trigger] self.holds_at(start, q, hash) {
            } else {
                assert(!self.mismatch_at(start, p, hash));
            }
        }
    }

    /// The number of slots whose tag matched but whose hash did not that a
    /// lookup of `hash` meets from step `j` of its probe on.
    pub closed spec fn lookup_false_positives(&self, hash: u64, j: nat) -> nat
        decreases self.group_count() - j,
    {
        let start = probe_position::<P>(hash, self.spec_capacity() as usize, j).0 as int;
        let here = self.scan_false_positives(start, hash, GROUP_SIZE as int);
        if j + 1 >= self.group_count() || self.group_has(start, hash) || self.stops_at(start) {
            here
        } else {
            here + self.lookup_false_positives(hash, j + 1)
        }
    }

    /// Scans the group at `group_start` for `hash`; also counts the slots
    /// whose tag matches but whose hash does not, up to the one that holds
    /// `hash`.
    fn scan_group(&self, group_start: usize, Ghost(hash): Ghost<u64>, search_tag: u8, stored_hash: u64) -> (r: (bool, usize))
        requires
            self.wf(),
            group_start < self.spec_capacity(),
            search_tag == search_tag_of(hash, TAG_LENGTH),
            stored_hash == stored_hash_of(hash),
        ensures
            r.0 == self.group_has(group_start as int, hash),
            r.1 == self.scan_false_positives(group_start as int, hash, GROUP_SIZE as int),
            r.1 <= GROUP_SIZE,
    {
        let cap = self.tags.len();
        let mut p: usize = 0;
        let mut false_positives: usize = 0;
        while p < GROUP_SIZE
            invariant
                self.wf(),
                cap == self.spec_capacity(),
                group_start < cap,
                p <= GROUP_SIZE,
                false_positives <= p,
                search_tag == search_tag_of(hash, TAG_LENGTH),
                stored_hash == stored_hash_of(hash),
                forall|q: int| 0 <= q < p ==> !#[trigger] self.holds_at(group_start as int, q, hash),
                false_positives == self.scan_false_positives(group_start as int, hash, p as int),
            decreases GROUP_SIZE - p,
        {
            let inner = (group_start + p) % cap;
            proof {
                assert(!(exists|q: int| 0 <= q < p && #[trigger] self.holds_at(group_start as int, q, hash)));
            }
            if self.tags[inner] == search_tag {
                if (self.buckets[inner] & STORED_MASK) == stored_hash {
                    assert(self.holds_at(group_start as int, p as int, hash));
                    proof {
                        self.lemma_scan_false_positives_stay(group_start as int, hash, p as int, GROUP_SIZE as int);
                    }
                    return (true, false_positives);
                } else {
                    assert(self.mismatch_at(group_start as int, p as int, hash));
                    false_positives += 1;
                }
            } else {
                assert(!self.mismatch_at(group_start as int, p as int, hash));
            }
            p += 1;
        }
        (false, false_positives)
    }

    /// A lookup in an untouched table finds nothing, steps past no group
    /// and counts no false positive.
    proof fn lemma_untouched_lookup(&self, hash: u64)
        requires
            self.wf(),
            self.probe_ok(),
            self.untouched(),
        ensures
            !self@.contains(hash),
            self.lookup_steps(hash, 0) == 0,
            self.lookup_false_positives(hash, 0) == 0,
    {
        self.lemma_group_count();
        let cap = self.spec_capacity();
        if self@.contains(hash) {
            assert(self.key_ok(hash));
            let i = self.locations@[hash].0;
            assert(self.tags@[i] == 0);
        }
        let start = probe_position::<P>(hash, cap as usize, 0).0 as int;
        let tags = group_tags(self.tags@, start, GROUP_SIZE as int);
        let values = group_values(self.buckets@, start, GROUP_SIZE as int);
        assert forall|q: int| 0 <= q < GROUP_SIZE implies #[trigger] tags[q] == 0 && values[q] == 0 by {
            let k = (start + q) % cap;
            vstd::arithmetic::div_mod::lemma_mod_bound(start + q, cap);
            assert(0 <= k < self.spec_capacity());
            assert(self.tags@[k] == 0);
            assert(self.buckets@[k] == 0);
        }
        P::lemma_empty_group_stops(tags, values);
        assert(self.stops_at(start));
        lemma_search_tag_nonzero(hash, TAG_LENGTH);
        assert forall|q: int| 0 <= q < GROUP_SIZE implies self.tags@[#[trigger] self.slot(start, q)] != search_tag_of(hash, TAG_LENGTH) by {
            vstd::arithmetic::div_mod::lemma_mod_bound(start + q, cap);
            assert(self.tags@[self.slot(start, q)] == 0);
        }
        self.lemma_no_tag_no_false_positives(start, hash, GROUP_SIZE as int);
    }

    /// Looks `hash` up. Returns whether the table holds it, the number of
    /// groups the lookup stepped past and the number of slots whose tag
    /// matched but whose hash did not.
    pub fn get(&self, hash: u64) -> (r: (bool, Stats))
        requires
            self.wf(),
            self.probe_ok(),
        ensures
            r.0 == self@.contains(hash),
            r.1.probe_length == self.lookup_steps(hash, 0),
            r.1.false_positives == self.lookup_false_positives(hash, 0),
            r.1.probe_length < self.group_count(),
            self.untouched() ==> !r.0 && r.1.probe_length == 0 && r.1.false_positives == 0,
    {
        proof {
            if self.untouched() {
                self.lemma_untouched_lookup(hash);
            }
        }
        let cap = self.tags.len();
        proof {
            self.lemma_group_count();
            lemma_overflow_bits(hash);
            lemma_search_tag_nonzero(hash, TAG_LENGTH);
        }
        let top = #[verifier::truncate] ((hash >> ((64 - TAG_LENGTH) as u64)) as u8);
        let search_tag = if top > 1 { top } else { 1 };
        let stored_hash = (hash & 0x3FFF_FFFF_FFFF_FFFFu64) | 0x4000_0000_0000_0000u64;
        let (mut index, mut state) = P::start(hash, cap);
        proof {
            P::lemma_in_table(hash, 0, 0, cap);
        }
        let mut attempts: usize = 0;
        let mut probe_length: usize = 0;
        let mut false_positives: usize = 0;
        loop
            invariant
                self.wf(),
                self.probe_ok(),
                cap == self.spec_capacity(),
                self.group_count() * GROUP_SIZE == cap,
                search_tag == search_tag_of(hash, TAG_LENGTH),
                stored_hash == stored_hash_of(hash),
                attempts < self.group_count(),
                probe_length == attempts,
                self.untouched() ==> !self@.contains(hash) && self.lookup_steps(hash, 0) == 0
                    && self.lookup_false_positives(hash, 0) == 0,
                (index, state) == probe_position::<P>(hash, cap, attempts as nat),
                index < cap,
                false_positives <= attempts * GROUP_SIZE,
                self.lookup_steps(hash, 0) == self.lookup_steps(hash, attempts as nat),
                false_positives + self.lookup_false_positives(hash, attempts as nat) == self.lookup_false_positives(hash, 0),
                self@.contains(hash) ==> attempts <= self.locations@[hash].1,
            decreases self.group_count() - attempts,
        {
            let group_start = index;
            let (found, fp) = self.scan_group(group_start, Ghost(hash), search_tag, stored_hash);
            proof {
                let a = attempts as int;
                let g = GROUP_SIZE as int;
                let gc = self.group_count();
                assert(a * g + g <= gc * g) by (nonlinear_arith)
                    requires a + 1 <= gc, g > 0;
                assert((a + 1) * g == a * g + g) by (nonlinear_arith);
            }
            false_positives = false_positives + fp;
            if found {
                proof {
                    let p = choose|p: int| 0 <= p < GROUP_SIZE && #[trigger] self.holds_at(group_start as int, p, hash);
                    self.lemma_holds_contained(self.slot(group_start as int, p), hash);
                    assert(cap <= usize::MAX);
                }
                return (true, Stats { probe_length, false_positives });
            }
            proof {
                if self@.contains(hash) {
                    assert(self.key_ok(hash));
                    let (i, n, p) = self.locations@[hash];
                    if n == attempts {
                        assert(self.holds_at(group_start as int, p, hash));
                    }
                }
            }
            attempts += 1;
            let mut tags: Vec<u8> = Vec::new();
            let mut values: Vec<u64> = Vec::new();
            let mut k: usize = 0;
            while k < GROUP_SIZE
                invariant
                    self.wf(),
                    cap == self.spec_capacity(),
                    group_start < cap,
                    k <= GROUP_SIZE,
                    tags@ == group_tags(self.tags@, group_start as int, k as int),
                    values@ == group_values(self.buckets@, group_start as int, k as int),
                decreases GROUP_SIZE - k,
            {
                tags.push(self.tags[(k + group_start) % cap]);
                values.push(self.buckets[(k + group_start) % cap]);
                proof {
                    assert(tags@ =~= group_tags(self.tags@, group_start as int, k + 1));
                    assert(values@ =~= group_values(self.buckets@, group_start as int, k + 1));
                }
                k += 1;
            }
            let stop = P::can_stop(tags.as_slice(), values.as_slice());
            if stop || attempts >= cap / GROUP_SIZE {
                proof {
                    if self@.contains(hash) {
                        assert(self.key_ok(hash));
                        let j = (attempts - 1) as nat;
                        let start = probe_position::<P>(hash, cap, j).0 as int;
                        assert(self.group_full(start));
                        assert(self.group_passed(start));
                        let gt = group_tags(self.tags@, start, GROUP_SIZE as int);
                        assert forall|q: int| 0 <= q < gt.len() implies #[trigger] gt[q] != 0 by {
                            assert(self.tags@[self.slot(start, q)] != 0);
                        }
                        P::lemma_full_group_continues(gt, group_values(self.buckets@, start, GROUP_SIZE as int));
                    }
                    assert(self.lookup_steps(hash, (attempts - 1) as nat) == (attempts - 1) as nat);
                }
                return (false, Stats { probe_length, false_positives });
            }
            proof {
                P::lemma_in_table(hash, index, state, cap);
                assert(self.lookup_steps(hash, (attempts - 1) as nat) == self.lookup_steps(hash, attempts as nat));
                assert(self.lookup_false_positives(hash, (attempts - 1) as nat)
                    == fp + self.lookup_false_positives(hash, attempts as nat));
            }
            index = P::next(index, &mut state, cap);
            probe_length += 1;
        }
    }
}

/// A table of `capacity` slots into which `hashes` were inserted in order.
pub fn initialize_table<const GROUP_SIZE: usize, const TAG_LENGTH: usize, P: ProbeSeq>(
    capacity: usize,
    hashes: &[u64],
) -> (r: Table<GROUP_SIZE, TAG_LENGTH, P>)
    requires
        GROUP_SIZE > 0,
        capacity as int % GROUP_SIZE as int == 0,
        power_of_two(capacity as int),
        capacity + GROUP_SIZE <= usize::MAX,
        TAG_LENGTH == 7 || TAG_LENGTH == 8,
        P::spec_start_ok(capacity),
    ensures
        r.wf(),
        r.spec_capacity() == capacity,
        forall|h: u64| #[trigger] r@.contains(h) ==> hashes@.contains(h),
        forall|k: int| 0 <= k < hashes@.len() ==> r@.contains(#[trigger] hashes@[k]) || r.probe_full(hashes@[k]),
{
    let mut table = Table::<GROUP_SIZE, TAG_LENGTH, P>::new(capacity);
    let mut i: usize = 0;
    while i < hashes.len()
        invariant
            table.wf(),
            table.spec_capacity() == capacity,
            P::spec_start_ok(capacity),
            i <= hashes@.len(),
            forall|h: u64| #[trigger] table@.contains(h) ==> hashes@.contains(h),
            forall|k: int| 0 <= k < i ==> table@.contains(#[trigger] hashes@[k]) || table.probe_full(hashes@[k]),
        decreases hashes@.len() - i,
    {
        let ghost before = table;
        table.insert(hashes[i]);
        proof {
            assert forall|h: u64| #[trigger] table@.contains(h) implies hashes@.contains(h) by {
                if h == hashes@[i as int] {
                    assert(hashes@[i as int] == h);
                } else {
                    assert(before@.contains(h));
                }
            }
            assert forall|k: int| 0 <= k < i + 1 implies table@.contains(#[trigger] hashes@[k]) || table.probe_full(hashes@[k]) by {
                if !before@.contains(hashes@[k]) && !table@.contains(hashes@[k]) {
                    assert(before.probe_full(hashes@[k]));
                    Table::<GROUP_SIZE, TAG_LENGTH, P>::lemma_probe_full_kept(&before, &table, hashes@[k]);
                }
            }
        }
        i += 1;
    }
    table
}

/// An insert is read back: a lookup of the hash just inserted finds it,
/// and a lookup of another hash finds it exactly when the table held it
/// before the insert.
pub proof fn lemma_read_after_insert<const GROUP_SIZE: usize, const TAG_LENGTH: usize, P: ProbeSeq>(
    before: Set<u64>,
    table: &Table<GROUP_SIZE, TAG_LENGTH, P>,
    inserted: u64,
    hash: u64,
    found: bool,
)
    requires
        table@ == before.insert(inserted),
        found == table@.contains(hash),
    ensures
        hash == inserted ==> found,
        hash != inserted ==> (found == before.contains(hash)),
{
}

} // verus!
