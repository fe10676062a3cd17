//! A fixed-capacity hash table made of chunks of eight slots.
//!
//! A key is a full 64-bit hash. Its top byte, raised to at least 1, is the
//! tag kept in the chunk's tag array (0 marks an empty slot); its low 61 bits
//! and an occupied bit are kept beside the value. A lookup starts at chunk
//! `hash % chunks` and steps by the odd stride `2 * top_byte + 1`. When a
//! write has to step past a full chunk it sets that chunk's overflow bit (the
//! top bit of the stored hash in the chunk's last slot); a lookup stops at
//! the first chunk whose overflow bit is clear.

use vstd::prelude::*;
use crate::bit_facts::{lemma_stored_hashes, lemma_u64_lanes, lemma_usize_mask};
use crate::atomic::AsAtomic;
use crate::bit_mask_8::{IterableBitMask8, all_bits, be_flag, only_be_flags};
use crate::power_of_two::{next_pow2, next_power_of_two, lemma_next_pow2, power_of_two, usize_range, lemma_mask_is_mod, lemma_mod_usize_range_then_mod, lemma_odd_inverse, lemma_mod_shift};
use crate::bit_mask_8::{IterableBitMaskIntrinsics8, lane_flag, only_lane_flags};
use crate::intrinsics::{u8x8_compare_eq_aarch64, eq_lane};

verus! {

/// The top bit of a stored hash: in the last slot of a chunk it marks that a
/// write had to probe past the chunk.
pub const OVERFLOW_BIT_MASK: u64 = 0x8000_0000_0000_0000;

/// The hash bits kept beside the value; the top bits are already in the tag.
const STORED_HASH_BIT_MASK: u64 = 0x1FFF_FFFF_FFFF_FFFF;

/// Set in every stored hash, so that an occupied slot never holds zero.
const HASH_OCCUPIED_BIT: u64 = 0x4000_0000_0000_0000;

/// The bits of a stored hash that identify the key.
const STORED_OCCUPIED_HASH_BIT_MASK: u64 = 0x5FFF_FFFF_FFFF_FFFF;

/// The tag of a hash: its top byte, raised to at least 1.
pub open spec fn search_tag_of(hash: u64) -> u8 {
    let top = (hash >> 56u64) as u8;
    if top > 1 { top } else { 1 }
}

/// The hash as a slot stores it.
pub open spec fn stored_hash_of(hash: u64) -> u64 {
    (hash & 0x1FFF_FFFF_FFFF_FFFFu64) | 0x4000_0000_0000_0000u64
}

/// The distance between the chunks a probe visits.
pub open spec fn stride_of(hash: u64) -> int {
    ((hash >> 56u64) as int) * 2 + 1
}

/// The hash that a tag and a stored hash stand for.
pub open spec fn decode_hash(tag: u8, stored: u64) -> u64 {
    if tag >= 2 {
        ((tag as u64) << 56u64) | (stored & 0x00FF_FFFF_FFFF_FFFFu64)
    } else {
        stored & 0x01FF_FFFF_FFFF_FFFFu64
    }
}

/// The hash that an entry listing reports for the key `hash`: its low 61
/// bits with its tag as the top byte. A key whose top byte is 0 is reported
/// with the tag 1 there.
pub open spec fn listed_hash(hash: u64) -> u64 {
    (hash & 0x1FFF_FFFF_FFFF_FFFFu64) | ((search_tag_of(hash) as u64) << 56u64)
}

proof fn lemma_listed_bits(stored: u64, hash: u64)
    by (bit_vector)
    requires
        stored & 0x5FFF_FFFF_FFFF_FFFFu64 == (hash & 0x1FFF_FFFF_FFFF_FFFFu64) | 0x4000_0000_0000_0000u64,
    ensures
        stored & 0x4000_0000_0000_0000u64 != 0,
        stored & 0x1FFF_FFFF_FFFF_FFFFu64 == hash & 0x1FFF_FFFF_FFFF_FFFFu64,
{
}

/// A slot with this tag and stored hash holds the key `hash`.
pub open spec fn slot_holds(tag: u8, stored: u64, hash: u64) -> bool {
    tag == search_tag_of(hash) && stored & 0x5FFF_FFFF_FFFF_FFFFu64 == stored_hash_of(hash)
}

/// The probe position after `step` steps, wrapping around the `usize` range.
pub open spec fn probe_index(hash: u64, step: nat) -> usize
    decreases step,
{
    if step == 0 {
        hash as usize
    } else {
        vstd::wrapping::usize_specs::wrapping_add(probe_index(hash, (step - 1) as nat), stride_of(hash) as usize)
    }
}

/// The chunk a write probes after `step` steps in a table of `n` chunks.
pub open spec fn probe_chunk(hash: u64, step: nat, n: int) -> int {
    probe_index(hash, step) as int % n
}

/// The value a write reports as replaced: none for a new key or for the
/// empty value.
pub open spec fn previous_value<V: AsAtomic>(contents: Map<u64, V>, hash: u64) -> Option<V> {
    if contents.contains_key(hash) && contents[hash] != V::spec_empty() {
        Some(contents[hash])
    } else {
        None
    }
}

proof fn lemma_decode(tag: u8, stored: u64, hash: u64)
    by (bit_vector)
    requires
        tag == (if ((hash >> 56u64) as u8) > 1 { (hash >> 56u64) as u8 } else { 1u8 }),
        stored & 0x5FFF_FFFF_FFFF_FFFFu64 == (hash & 0x1FFF_FFFF_FFFF_FFFFu64) | 0x4000_0000_0000_0000u64,
    ensures
        (if tag >= 2 {
            ((tag as u64) << 56u64) | (stored & 0x00FF_FFFF_FFFF_FFFFu64)
        } else {
            stored & 0x01FF_FFFF_FFFF_FFFFu64
        }) == hash,
{
}

/// A slot that holds a key holds exactly that key.
pub proof fn lemma_slot_holds_decodes(tag: u8, stored: u64, hash: u64)
    requires
        slot_holds(tag, stored, hash),
    ensures
        decode_hash(tag, stored) == hash,
{
    lemma_decode(tag, stored, hash);
}

proof fn lemma_stored_nonzero(hash: u64)
    ensures
        ((hash & 0x1FFF_FFFF_FFFF_FFFFu64) | 0x4000_0000_0000_0000u64) != 0,
        ((hash & 0x1FFF_FFFF_FFFF_FFFFu64) | 0x4000_0000_0000_0000u64) & 0x5FFF_FFFF_FFFF_FFFFu64
            == (hash & 0x1FFF_FFFF_FFFF_FFFFu64) | 0x4000_0000_0000_0000u64,
        ((hash & 0x1FFF_FFFF_FFFF_FFFFu64) | 0x4000_0000_0000_0000u64) & 0x8000_0000_0000_0000u64 == 0,
{
    lemma_stored_hashes(hash, 0);
}

proof fn lemma_overflow_bit_keeps_key(stored: u64)
    ensures
        (stored | 0x8000_0000_0000_0000u64) & 0x5FFF_FFFF_FFFF_FFFFu64 == stored & 0x5FFF_FFFF_FFFF_FFFFu64,
        (stored | 0x8000_0000_0000_0000u64) & 0x00FF_FFFF_FFFF_FFFFu64 == stored & 0x00FF_FFFF_FFFF_FFFFu64,
        (stored | 0x8000_0000_0000_0000u64) & 0x01FF_FFFF_FFFF_FFFFu64 == stored & 0x01FF_FFFF_FFFF_FFFFu64,
        (stored | 0x8000_0000_0000_0000u64) & 0x8000_0000_0000_0000u64 != 0,
{
    lemma_stored_hashes(0, stored);
}

/// In a table whose chunk count is a power of two, the probe path advances
/// by the stride modulo the chunk count.
pub proof fn lemma_probe_chunk_step(hash: u64, step: nat, n: int)
    requires
        power_of_two(n),
        n <= usize::MAX,
    ensures
        probe_chunk(hash, 0, n) == (hash as usize) as int % n,
        probe_chunk(hash, step + 1, n) == (probe_chunk(hash, step, n) + stride_of(hash)) % n,
{
    lemma_mod_usize_range_then_mod(0, n);
    let x = probe_index(hash, step) as int;
    let s = stride_of(hash);
    lemma_u64_lanes(hash, 0);
    assert(0 < s < 512);
    let y = vstd::wrapping::usize_specs::wrapping_add(x as usize, s as usize) as int;
    assert(y == (x + s) % usize_range()) by {
        if x + s > usize::MAX {
            vstd::arithmetic::div_mod::lemma_mod_sub_multiples_vanish(x + s, usize_range());
            vstd::arithmetic::div_mod::lemma_small_mod((x + s - usize_range()) as nat, usize_range() as nat);
        } else {
            vstd::arithmetic::div_mod::lemma_small_mod((x + s) as nat, usize_range() as nat);
        }
    }
    lemma_mod_usize_range_then_mod(x + s, n);
    vstd::arithmetic::div_mod::lemma_add_mod_noop(x, s, n);
    vstd::arithmetic::div_mod::lemma_mod_twice(s, n);
    assert(probe_index(hash, step + 1) as int == y);
    assert(probe_chunk(hash, step + 1, n) == y % n);
    assert((x % n + s) % n == (x + s) % n) by {
        vstd::arithmetic::div_mod::lemma_add_mod_noop(x % n, s, n);
        vstd::arithmetic::div_mod::lemma_mod_twice(x, n);
    }
}

/// A probe's `k`th chunk is its first chunk plus `k` strides, modulo the
/// chunk count.
proof fn lemma_probe_chunk_closed(hash: u64, k: nat, n: int)
    requires
        power_of_two(n),
        n <= usize::MAX,
    ensures
        probe_chunk(hash, k, n) == ((hash as usize) as int % n + k * stride_of(hash)) % n,
    decreases k,
{
    lemma_mod_usize_range_then_mod(0, n);
    lemma_probe_chunk_step(hash, 0, n);
    let st = (hash as usize) as int % n;
    let s = stride_of(hash);
    if k == 0 {
        vstd::arithmetic::div_mod::lemma_mod_twice((hash as usize) as int, n);
        assert(st + 0 * s == st) by (nonlinear_arith);
    } else {
        lemma_probe_chunk_closed(hash, (k - 1) as nat, n);
        lemma_probe_chunk_step(hash, (k - 1) as nat, n);
        let x = st + (k - 1) * s;
        vstd::arithmetic::div_mod::lemma_add_mod_noop_right(s, x, n);
        assert(x + s == st + k * s) by (nonlinear_arith)
            requires x == st + (k - 1) * s;
        assert((probe_chunk(hash, (k - 1) as nat, n) + s) % n == (s + x % n) % n);
    }
}

/// In a table whose chunk count is a power of two, the probe of any hash
/// reaches every chunk within as many steps as there are chunks.
pub proof fn lemma_probe_reaches_every_chunk(hash: u64, n: int, c: int)
    requires
        power_of_two(n),
        n <= usize::MAX,
        0 <= c < n,
    ensures
        exists|k: nat| k < n && #[trigger] probe_chunk(hash, k, n) == c,
{
    lemma_mod_usize_range_then_mod(0, n);
    let e = choose|e: nat| #[trigger] vstd::arithmetic::power2::pow2(e) == n;
    let st = (hash as usize) as int % n;
    let s = stride_of(hash);
    lemma_u64_lanes(hash, 0);
    assert(s % 2 == 1);
    let (u, m) = lemma_odd_inverse(s, e);
    let d = (c - st) % n;
    vstd::arithmetic::div_mod::lemma_mod_bound(c - st, n);
    let k = (d * u) % n;
    vstd::arithmetic::div_mod::lemma_mod_bound(d * u, n);
    // `k` strides add up to `d` chunks.
    vstd::arithmetic::div_mod::lemma_mul_mod_noop_left(d * u, s, n);
    assert(d * u * s == d + (d * m) * n) by (nonlinear_arith)
        requires
            s * u == 1 + m * n;
    lemma_mod_shift(d, d * m, n);
    vstd::arithmetic::div_mod::lemma_small_mod(d as nat, n as nat);
    assert((k * s) % n == d);
    lemma_probe_chunk_closed(hash, k as nat, n);
    vstd::arithmetic::div_mod::lemma_add_mod_noop_right(st, k * s, n);
    vstd::arithmetic::div_mod::lemma_add_mod_noop_right(st, c - st, n);
    vstd::arithmetic::div_mod::lemma_small_mod(c as nat, n as nat);
    assert(probe_chunk(hash, k as nat, n) == c);
}

/// In a table whose chunk count is a power of two, the first steps of a
/// probe, as many as there are chunks, visit distinct chunks.
pub proof fn lemma_probe_visits_distinct_chunks(hash: u64, n: int, a: nat, b: nat)
    requires
        power_of_two(n),
        n <= usize::MAX,
        a < b < n,
    ensures
        probe_chunk(hash, a, n) != probe_chunk(hash, b, n),
{
    lemma_mod_usize_range_then_mod(0, n);
    let e = choose|e: nat| #[trigger] vstd::arithmetic::power2::pow2(e) == n;
    let st = (hash as usize) as int % n;
    let s = stride_of(hash);
    lemma_u64_lanes(hash, 0);
    let (u, m) = lemma_odd_inverse(s, e);
    lemma_probe_chunk_closed(hash, a, n);
    lemma_probe_chunk_closed(hash, b, n);
    if probe_chunk(hash, a, n) == probe_chunk(hash, b, n) {
        // Then `(b - a)` strides are a multiple of `n`, and so is `b - a`.
        let d = b - a;
        assert((st + b * s) == (st + a * s) + d * s) by (nonlinear_arith)
            requires d == b - a;
        vstd::arithmetic::div_mod::lemma_fundamental_div_mod(st + a * s, n);
        vstd::arithmetic::div_mod::lemma_fundamental_div_mod(st + b * s, n);
        let qa = (st + a * s) / n;
        let qb = (st + b * s) / n;
        assert(d * s == (qb - qa) * n) by (nonlinear_arith)
            requires
                st + a * s == n * qa + (st + a * s) % n,
                st + b * s == n * qb + (st + b * s) % n,
                (st + a * s) % n == (st + b * s) % n,
                st + b * s == (st + a * s) + d * s;
        assert(d == (qb - qa) * u * n - d * m * n) by (nonlinear_arith)
            requires
                d * s == (qb - qa) * n,
                s * u == 1 + m * n;
        let t = (qb - qa) * u - d * m;
        assert(d == t * n) by (nonlinear_arith)
            requires d == (qb - qa) * u * n - d * m * n, t == (qb - qa) * u - d * m;
        assert(false) by (nonlinear_arith)
            requires d == t * n, 0 < d < n, n > 0;
    }
}

/// Produces a mask that is all zeros, except the most significant bit which
/// is set when `(position + 1) / 16` is odd: for positions 0 to 15, only
/// position 15 sets it.
pub fn get_positional_overflow_bit_or_mask(position: usize) -> (r: u64)
    requires
        position < u64::MAX,
    ensures
        r == (if ((position + 1) / 16) % 2 == 1 { 0x8000_0000_0000_0000u64 } else { 0u64 }),
{
    let p = position as u64 + 1;
    let r = (p >> 4u64) << 63u64;
    assert(r == (if (p / 16) % 2 == 1 { 0x8000_0000_0000_0000u64 } else { 0u64 })) by (bit_vector)
        requires r == (p >> 4u64) << 63u64;
    r
}

/// Replaces the top bit of `hash` with the top bit of `tag`.
pub fn overwrite_overflow_bit(hash: u64, tag: u8) -> (r: u64)
    ensures
        r & 0x7FFF_FFFF_FFFF_FFFFu64 == hash & 0x7FFF_FFFF_FFFF_FFFFu64,
        (r >> 63u64) == (tag >> 7u8) as u64,
{
    let r = (hash & !OVERFLOW_BIT_MASK) | (((tag & 0b1000_0000u8) as u64) << 56u64);
    assert(r & 0x7FFF_FFFF_FFFF_FFFFu64 == hash & 0x7FFF_FFFF_FFFF_FFFFu64 && (r >> 63u64) == (tag >> 7u8) as u64)
        by (bit_vector)
        requires r == (hash & !0x8000_0000_0000_0000u64) | (((tag & 0b1000_0000u8) as u64) << 56u64);
    r
}

/// Eight slots: their tags side by side, then their stored hashes and values.
#[derive(Clone, Copy)]
pub struct Chunk8<V> {
    pub tags: [u8; 8],
    pub data: [(u64, V); 8],
}

impl<V: AsAtomic> Chunk8<V> {
    /// An empty chunk: every tag and stored hash is zero and every value is
    /// the empty value.
    pub fn new() -> (r: Self)
        ensures
            forall|p: int| 0 <= p < 8 ==> r.tags@[p] == 0 && (#[trigger] r.data@[p]) == (0u64, V::spec_empty()),
    {
        let e = V::empty();
        Self { tags: [0u8; 8], data: [(0u64, e), (0u64, e), (0u64, e), (0u64, e), (0u64, e), (0u64, e), (0u64, e), (0u64, e)] }
    }
}

/// The first `i` chunks are empty.
spec fn chunks_empty<V: AsAtomic>(chunks: Seq<Chunk8<V>>, i: int) -> bool {
    forall|c: int, p: int| 0 <= c < i && 0 <= p < 8 ==> (#[trigger] chunks[c].tags@[p]) == 0
        && chunks[c].data@[p] == (0u64, V::spec_empty())
}

/// A table of chunks that only grows: values can be written and overwritten,
/// never removed.
pub struct FixedTable8<V> {
    size: usize,
    chunks: Vec<Chunk8<V>>,
    contents: Ghost<Map<u64, V>>,
    locations: Ghost<Map<u64, (int, int, nat)>>,
}

impl<V> View for FixedTable8<V> {
    type V = Map<u64, V>;

    closed spec fn view(&self) -> Map<u64, V> {
        self.contents@
    }
}

impl<V: AsAtomic> FixedTable8<V> {
    /// The number of chunks.
    pub closed spec fn chunk_count(&self) -> int {
        self.chunks@.len() as int
    }

    spec fn tag_at(&self, c: int, p: int) -> u8 {
        self.chunks@[c].tags@[p]
    }

    spec fn hash_at(&self, c: int, p: int) -> u64 {
        self.chunks@[c].data@[p].0
    }

    spec fn value_at(&self, c: int, p: int) -> V {
        self.chunks@[c].data@[p].1
    }

    /// Every slot of chunk `c` is occupied.
    pub closed spec fn chunk_full(&self, c: int) -> bool {
        forall|p: int| 0 <= p < 8 ==> #[trigger] self.tag_at(c, p) != 0
    }

    spec fn chunk_overflowed(&self, c: int) -> bool {
        self.hash_at(c, 7) & 0x8000_0000_0000_0000u64 != 0
    }

    spec fn slot_ok(&self, c: int, p: int) -> bool {
        let t = self.tag_at(c, p);
        let st = self.hash_at(c, p);
        if t == 0 {
            st == 0 && self.value_at(c, p) == V::spec_empty()
        } else {
            let h = decode_hash(t, st);
            &&& slot_holds(t, st, h)
            &&& self.contents@.contains_key(h)
            &&& self.contents@[h] == self.value_at(c, p)
            &&& self.locations@.contains_key(h)
            &&& self.locations@[h].0 == c
            &&& self.locations@[h].1 == p
        }
    }

    spec fn key_ok(&self, h: u64) -> bool {
        let n = self.chunk_count();
        let (c, p, j) = self.locations@[h];
        &&& 0 <= c < n
        &&& 0 <= p < 8
        &&& j < n
        &&& probe_chunk(h, j, n) == c
        &&& self.tag_at(c, p) != 0
        &&& decode_hash(self.tag_at(c, p), self.hash_at(c, p)) == h
        &&& forall|i: nat| i < j ==> #[trigger] self.chunk_full(probe_chunk(h, i, n)) && self.chunk_overflowed(probe_chunk(h, i, n))
    }

    /// Every chunk on the probe path of `hash` is full.
    pub closed spec fn probe_full(&self, hash: u64) -> bool {
        forall|i: nat| i < self.chunk_count() ==> #[trigger] self.chunk_full(probe_chunk(hash, i, self.chunk_count()))
    }

    /// In a table whose chunk count is a power of two, every chunk on a
    /// probe being full means every chunk of the table is full: a write is
    /// refused only by a full table.
    pub proof fn lemma_full_probe_means_full_table(&self, hash: u64)
        requires
            power_of_two(self.chunk_count()),
            self.chunk_count() <= usize::MAX,
            self.probe_full(hash),
        ensures
            forall|c: int| 0 <= c < self.chunk_count() ==> #[trigger] self.chunk_full(c),
    {
        assert forall|c: int| 0 <= c < self.chunk_count() implies #[trigger] self.chunk_full(c) by {
            lemma_probe_reaches_every_chunk(hash, self.chunk_count(), c);
            let k = choose|k: nat| k < self.chunk_count() && #[trigger] probe_chunk(hash, k, self.chunk_count()) == c;
            assert(self.chunk_full(probe_chunk(hash, k, self.chunk_count())));
        }
    }

    /// The slots that hold a value, numbered `8 * chunk + position`.
    spec fn occupied_slots(&self) -> Set<int> {
        Set::new(|s: int| 0 <= s < 8 * self.chunk_count() && self.tag_at(s / 8, s % 8) != 0)
    }

    /// The key stored in slot `s`.
    spec fn slot_key(&self, s: int) -> u64 {
        decode_hash(self.tag_at(s / 8, s % 8), self.hash_at(s / 8, s % 8))
    }

    /// Each stored key has a slot of its own and each occupied slot holds a
    /// stored key, so the table holds as many keys as it has occupied slots.
    proof fn lemma_key_count(&self)
        requires
            self.wf(),
        ensures
            self@.dom().finite(),
            self@.len() == self.occupied_slots().len(),
            self.occupied_slots().subset_of(vstd::set_lib::set_int_range(0, 8 * self.chunk_count())),
            self@.len() <= 8 * self.chunk_count(),
    {
        let n = self.chunk_count();
        let occupied = self.occupied_slots();
        let range = vstd::set_lib::set_int_range(0, 8 * n);
        let key_of = |s: int| self.slot_key(s);
        vstd::set_lib::lemma_int_range(0, 8 * n);
        assert(occupied.subset_of(range));
        vstd::set_lib::lemma_len_subset(occupied, range);
        assert forall|s1: int, s2: int| occupied.contains(s1) && occupied.contains(s2) && #[trigger] key_of(s1) == #[trigger] key_of(s2)
            implies s1 == s2 by {
            assert(self.slot_ok(s1 / 8, s1 % 8));
            assert(self.slot_ok(s2 / 8, s2 % 8));
        }
        assert(vstd::relations::injective_on(key_of, occupied));
        assert forall|h: u64| #[trigger] occupied.map(key_of).contains(h) <==> self@.dom().contains(h) by {
            if occupied.map(key_of).contains(h) {
                let s = choose|s: int| occupied.contains(s) && key_of(s) == h;
                assert(self.slot_ok(s / 8, s % 8));
            }
            if self@.dom().contains(h) {
                assert(self.locations@.contains_key(h));
                assert(self.key_ok(h));
                let (c, p, j) = self.locations@[h];
                let s = 8 * c + p;
                assert(s / 8 == c && s % 8 == p) by (nonlinear_arith)
                    requires s == 8 * c + p, 0 <= p < 8;
                assert(occupied.contains(s));
                assert(key_of(s) == h);
            }
        }
        assert(occupied.map(key_of) =~= self@.dom());
        vstd::set_lib::lemma_map_size(occupied, self@.dom(), key_of);
    }

    /// In a table whose chunk count is a power of two, the probe of `hash`
    /// finds every chunk full exactly when every slot of the table holds a
    /// key; the table never holds more keys than it has slots.
    pub proof fn lemma_probe_full_iff_table_full(&self, hash: u64)
        requires
            self.wf(),
            power_of_two(self.chunk_count()),
        ensures
            self@.dom().finite(),
            self@.len() <= 8 * self.chunk_count(),
            self.probe_full(hash) <==> self@.len() == 8 * self.chunk_count(),
    {
        let n = self.chunk_count();
        let occupied = self.occupied_slots();
        let range = vstd::set_lib::set_int_range(0, 8 * n);
        self.lemma_key_count();
        vstd::set_lib::lemma_int_range(0, 8 * n);
        if self.probe_full(hash) {
            self.lemma_full_probe_means_full_table(hash);
            assert forall|s: int| #[trigger] range.contains(s) implies occupied.contains(s) by {
                assert(s / 8 < n) by (nonlinear_arith)
                    requires 0 <= s < 8 * n;
                assert(self.chunk_full(s / 8));
                assert(self.tag_at(s / 8, s % 8) != 0);
            }
            assert(occupied =~= range);
        }
        if self@.len() == 8 * n {
            vstd::set_lib::lemma_subset_equality(occupied, range);
            assert forall|i: nat| i < n implies #[trigger] self.chunk_full(probe_chunk(hash, i, n)) by {
                let c = probe_chunk(hash, i, n);
                assert(0 <= c < n) by {
                    assert(n > 0);
                }
                assert forall|p: int| 0 <= p < 8 implies #[trigger] self.tag_at(c, p) != 0 by {
                    let s = 8 * c + p;
                    assert(s / 8 == c && s % 8 == p && 0 <= s < 8 * n) by (nonlinear_arith)
                        requires s == 8 * c + p, 0 <= p < 8, 0 <= c < n;
                    assert(range.contains(s));
                }
            }
        }
    }

    /// The position within its chunk of the slot that holds the key `hash`.
    pub closed spec fn slot_position(&self, hash: u64) -> int {
        self.locations@[hash].1
    }

    /// `entry` is what a listing reports for a key of the table whose slot is
    /// among the first seven of its chunk: the key by [`listed_hash`], with
    /// its value.
    pub open spec fn reports_key(&self, entry: (u64, V)) -> bool {
        exists|hash: u64| #![trigger listed_hash(hash)]
            self@.contains_key(hash) && self.slot_position(hash) < 7 && entry == (listed_hash(hash), self@[hash])
    }

    /// What an entry listing reports for slot `p` of chunk `c`.
    spec fn listed_at(&self, c: int, p: int) -> (u64, V) {
        let (stored, value) = self.chunks@[c].data@[p];
        ((stored & 0x1FFF_FFFF_FFFF_FFFFu64) | ((self.chunks@[c].tags@[p] as u64) << 56u64), value)
    }

    /// Every entry that a listing of the first `q` slots of a chunk reports
    /// comes from an occupied slot below `q`.
    proof fn lemma_chunk_listing_sound(&self, c: int, q: int, k: int)
        requires
            0 <= c < self.chunks@.len(),
            0 <= q <= 8,
            0 <= k < Self::chunk_entries_upto(self.chunks@[c], q).len(),
        ensures
            exists|p: int| 0 <= p < q && self.chunks@[c].data@[p].0 & 0x4000_0000_0000_0000u64 != 0
                && Self::chunk_entries_upto(self.chunks@[c], q)[k] == #[trigger] self.listed_at(c, p),
        decreases q,
    {
        let before = Self::chunk_entries_upto(self.chunks@[c], q - 1);
        let now = Self::chunk_entries_upto(self.chunks@[c], q);
        if k < before.len() {
            self.lemma_chunk_listing_sound(c, q - 1, k);
            let p = choose|p: int| 0 <= p < q - 1 && self.chunks@[c].data@[p].0 & 0x4000_0000_0000_0000u64 != 0
                && before[k] == #[trigger] self.listed_at(c, p);
            assert(now[k] == before[k]);
            assert(now[k] == self.listed_at(c, p));
        } else {
            assert(now[k] == self.listed_at(c, q - 1));
        }
    }

    /// Every occupied slot below `q` of a chunk is reported by a listing of
    /// its first `q` slots.
    proof fn lemma_chunk_listing_complete(&self, c: int, q: int, p: int)
        requires
            0 <= c < self.chunks@.len(),
            0 <= p < q <= 8,
            self.chunks@[c].data@[p].0 & 0x4000_0000_0000_0000u64 != 0,
        ensures
            exists|k: int| 0 <= k < Self::chunk_entries_upto(self.chunks@[c], q).len()
                && #[trigger] Self::chunk_entries_upto(self.chunks@[c], q)[k] == self.listed_at(c, p),
        decreases q,
    {
        let before = Self::chunk_entries_upto(self.chunks@[c], q - 1);
        let now = Self::chunk_entries_upto(self.chunks@[c], q);
        if p < q - 1 {
            self.lemma_chunk_listing_complete(c, q - 1, p);
            let k = choose|k: int| 0 <= k < before.len() && #[trigger] before[k] == self.listed_at(c, p);
            assert(now[k] == before[k]);
        } else {
            assert(now[before.len() as int] == self.listed_at(c, p));
        }
    }

    /// Every entry that a listing of the first `n` chunks reports comes from
    /// an occupied slot among the first seven of one of them.
    proof fn lemma_table_listing_sound(&self, n: int, k: int)
        requires
            0 <= n <= self.chunks@.len(),
            0 <= k < Self::entries_upto(self.chunks@, n).len(),
        ensures
            exists|c: int, p: int| 0 <= c < n && 0 <= p < 7 && self.chunks@[c].data@[p].0 & 0x4000_0000_0000_0000u64 != 0
                && Self::entries_upto(self.chunks@, n)[k] == #[trigger] self.listed_at(c, p),
        decreases n,
    {
        let before = Self::entries_upto(self.chunks@, n - 1);
        let last = Self::chunk_entries_upto(self.chunks@[n - 1], 7);
        let now = Self::entries_upto(self.chunks@, n);
        assert(now == before + last);
        if k < before.len() {
            self.lemma_table_listing_sound(n - 1, k);
            let (c, p) = choose|c: int, p: int| 0 <= c < n - 1 && 0 <= p < 7
                && self.chunks@[c].data@[p].0 & 0x4000_0000_0000_0000u64 != 0
                && before[k] == #[trigger] self.listed_at(c, p);
            assert(now[k] == before[k]);
            assert(now[k] == self.listed_at(c, p));
        } else {
            let j = k - before.len();
            assert(now[k] == last[j]);
            self.lemma_chunk_listing_sound(n - 1, 7, j);
            let p = choose|p: int| 0 <= p < 7 && self.chunks@[n - 1].data@[p].0 & 0x4000_0000_0000_0000u64 != 0
                && last[j] == #[trigger] self.listed_at(n - 1, p);
            assert(now[k] == self.listed_at(n - 1, p));
        }
    }

    /// Every occupied slot among the first seven of the first `n` chunks is
    /// reported by a listing of those chunks.
    proof fn lemma_table_listing_complete(&self, n: int, c: int, p: int)
        requires
            0 <= c < n <= self.chunks@.len(),
            0 <= p < 7,
            self.chunks@[c].data@[p].0 & 0x4000_0000_0000_0000u64 != 0,
        ensures
            exists|k: int| 0 <= k < Self::entries_upto(self.chunks@, n).len()
                && #[trigger] Self::entries_upto(self.chunks@, n)[k] == self.listed_at(c, p),
        decreases n,
    {
        let before = Self::entries_upto(self.chunks@, n - 1);
        let last = Self::chunk_entries_upto(self.chunks@[n - 1], 7);
        let now = Self::entries_upto(self.chunks@, n);
        assert(now == before + last);
        if c < n - 1 {
            self.lemma_table_listing_complete(n - 1, c, p);
            let k = choose|k: int| 0 <= k < before.len() && #[trigger] before[k] == self.listed_at(c, p);
            assert(now[k] == before[k]);
        } else {
            self.lemma_chunk_listing_complete(n - 1, 7, p);
            let j = choose|j: int| 0 <= j < last.len() && #[trigger] last[j] == self.listed_at(c, p);
            assert(now[before.len() + j] == last[j]);
        }
    }

    /// An entry listing reports each key whose slot is among the first seven
    /// of its chunk, with its value, and nothing else: every listed entry is
    /// such a key, reported by [`listed_hash`], with its value.
    pub proof fn lemma_listing_reports_keys(&self, listing: Seq<(u64, V)>)
        requires
            self.wf(),
            listing == Self::entries_upto(self.chunks_view(), self.chunk_count()),
        ensures
            forall|hash: u64| #[trigger] self@.contains_key(hash) && self.slot_position(hash) < 7 ==> exists|k: int|
                0 <= k < listing.len() && listing[k] == (listed_hash(hash), self@[hash]),
            forall|k: int| 0 <= k < listing.len() ==> self.reports_key(#[trigger] listing[k]),
    {
        let n = self.chunk_count();
        assert(self.chunks_view() == self.chunks@);
        assert forall|hash: u64| #[trigger] self@.contains_key(hash) && self.slot_position(hash) < 7 implies exists|k: int|
            0 <= k < listing.len() && listing[k] == (listed_hash(hash), self@[hash]) by {
            assert(self.locations@.contains_key(hash));
            assert(self.key_ok(hash));
            let (c, p, j) = self.locations@[hash];
            assert(self.slot_ok(c, p));
            let stored = self.hash_at(c, p);
            lemma_listed_bits(stored, hash);
            assert(self.chunks@[c].data@[p].0 & 0x4000_0000_0000_0000u64 != 0);
            assert(self.listed_at(c, p) == (listed_hash(hash), self@[hash]));
            self.lemma_table_listing_complete(n, c, p);
        }
        assert forall|k: int| 0 <= k < listing.len() implies self.reports_key(#[trigger] listing[k]) by {
            self.lemma_listed_entry_is_key(listing, k);
        }
    }

    /// The `k`th entry of a listing of the whole table is a key whose slot
    /// is among the first seven of its chunk, reported with its value.
    proof fn lemma_listed_entry_is_key(&self, listing: Seq<(u64, V)>, k: int)
        requires
            self.wf(),
            listing == Self::entries_upto(self.chunks_view(), self.chunk_count()),
            0 <= k < listing.len(),
        ensures
            self.reports_key(listing[k]),
    {
        let n = self.chunk_count();
        assert(self.chunks_view() == self.chunks@);
        self.lemma_table_listing_sound(n, k);
        let (c, p) = choose|c: int, p: int| 0 <= c < n && 0 <= p < 7
            && self.chunks@[c].data@[p].0 & 0x4000_0000_0000_0000u64 != 0
            && listing[k] == #[trigger] self.listed_at(c, p);
        assert(self.slot_ok(c, p));
        let t = self.tag_at(c, p);
        let stored = self.hash_at(c, p);
        if t == 0 {
            assert(stored == 0);
            assert(0u64 & 0x4000_0000_0000_0000u64 == 0) by (bit_vector);
            assert(false);
        }
        let hash = decode_hash(t, stored);
        lemma_listed_bits(stored, hash);
        assert(self.locations@[hash].1 == p);
        assert(self.slot_position(hash) < 7);
        assert(listing[k] == (listed_hash(hash), self@[hash]));
        assert(self@.contains_key(hash));
    }

    /// The table's internal invariant.
    pub closed spec fn wf(&self) -> bool {
        let n = self.chunk_count();
        &&& self.size == 8 * n
        &&& forall|c: int, p: int| 0 <= c < n && 0 <= p < 8 ==> #[trigger] self.slot_ok(c, p)
        &&& forall|c: int| 0 <= c < n && #[trigger] self.chunk_overflowed(c) ==> self.chunk_full(c)
        &&& self.contents@.dom() == self.locations@.dom()
        &&& forall|h: u64| #[trigger] self.locations@.contains_key(h) ==> self.key_ok(h)
    }

    /// A table of `chunk_count` empty chunks.
    pub fn new(chunk_count: usize) -> (r: Self)
        requires
            chunk_count <= usize::MAX / 8,
        ensures
            r.wf(),
            r@ == Map::<u64, V>::empty(),
            r.chunk_count() == chunk_count,
            chunk_count > 0 ==> forall|hash: u64| !#[trigger] r.probe_full(hash),
    {
        let mut chunks: Vec<Chunk8<V>> = Vec::new();
        let mut i: usize = 0;
        while i < chunk_count
            invariant
                i <= chunk_count,
                chunks@.len() == i,
                chunks_empty(chunks@, i as int),
            decreases chunk_count - i,
        {
            let ch = Chunk8::new();
            let ghost old_chunks = chunks@;
            let ghost old_i = i;
            chunks.push(ch);
            i += 1;
            assert forall|c: int, p: int| 0 <= c < i && 0 <= p < 8 implies (#[trigger] chunks@[c].tags@[p]) == 0
                && chunks@[c].data@[p] == (0u64, V::spec_empty()) by {
                if c == old_i {
                    assert(chunks@[c] == ch);
                    assert(ch.data@[p] == (0u64, V::spec_empty()));
                    assert(ch.tags@[p] == 0);
                } else {
                    assert(chunks@[c] == old_chunks[c]);
                    assert(old_chunks[c].tags@[p] == 0);
                }
            }
        }
        let r = Self { size: chunk_count * 8, chunks, contents: Ghost(Map::empty()), locations: Ghost(Map::empty()) };
        assert forall|c: int, p: int| 0 <= c < chunk_count && 0 <= p < 8 implies #[trigger] r.slot_ok(c, p) by {
            assert(r.chunks@[c].tags@[p] == 0);
        }
        assert forall|c: int| 0 <= c < chunk_count && #[trigger] r.chunk_overflowed(c) implies r.chunk_full(c) by {
            assert(r.chunks@[c].tags@[7] == 0);
            lemma_u64_lanes(0, 0);
        }
        proof {
            if chunk_count > 0 {
                assert forall|hash: u64| !#[trigger] r.probe_full(hash) by {
                    let c = probe_chunk(hash, 0, chunk_count as int);
                    vstd::arithmetic::div_mod::lemma_mod_bound(probe_index(hash, 0) as int, chunk_count as int);
                    assert(r.chunks@[c].tags@[0] == 0);
                    assert(r.tag_at(c, 0) == 0);
                    assert(!r.chunk_full(c));
                    assert(r.chunk_count() == chunk_count);
                    assert(r.probe_full(hash) ==> r.chunk_full(probe_chunk(hash, 0, r.chunk_count())));
                }
            }
        }
        r
    }

    /// A table with room for at least `capacity` values: the number of chunks
    /// is the smallest power of two that holds `capacity` slots.
    pub fn new_with_capacity(capacity: usize) -> (r: Self)
        requires
            8 * next_pow2(((capacity + 7) / 8) as nat) <= usize::MAX,
        ensures
            r.wf(),
            r@ == Map::<u64, V>::empty(),
            r.chunk_count() == next_pow2(((capacity + 7) / 8) as nat),
            power_of_two(r.chunk_count()),
            8 * r.chunk_count() >= capacity,
            forall|hash: u64| !#[trigger] r.probe_full(hash),
    {
        proof {
            lemma_next_pow2(((capacity + 7) / 8) as nat);
        }
        let rounded_chunks = capacity / 8 + if capacity % 8 == 0 { 0 } else { 1 };
        assert(rounded_chunks == (capacity + 7) / 8);
        let chunk_count = next_power_of_two(rounded_chunks);
        Self::new(chunk_count)
    }

    /// Reports the empty value as no value.
    fn default_to_option(value: V) -> (r: Option<V>)
        ensures
            r == (if value == V::spec_empty() { None } else { Some(value) }),
    {
        if value.is_empty_value() {
            None
        } else {
            Some(value)
        }
    }

    proof fn lemma_tags_same_full(&self, other: &Self, c: int)
        requires
            self.chunks@.len() == other.chunks@.len(),
            0 <= c < self.chunks@.len(),
            forall|p: int| 0 <= p < 8 ==> self.tag_at(c, p) == #[trigger] other.tag_at(c, p),
        ensures
            self.chunk_full(c) == other.chunk_full(c),
    {
        if self.chunk_full(c) {
            assert forall|p: int| 0 <= p < 8 implies #[trigger] other.tag_at(c, p) != 0 by {
                assert(self.tag_at(c, p) != 0);
            }
        }
        if other.chunk_full(c) {
            assert forall|p: int| 0 <= p < 8 implies #[trigger] self.tag_at(c, p) != 0 by {
                assert(other.tag_at(c, p) != 0);
            }
        }
    }

    /// An occupied slot stores a nonzero hash that identifies its key.
    proof fn lemma_occupied_slot(&self, c: int, p: int)
        requires
            self.wf(),
            0 <= c < self.chunk_count(),
            0 <= p < 8,
            self.tag_at(c, p) != 0,
        ensures
            self.hash_at(c, p) & 0x5FFF_FFFF_FFFF_FFFFu64 == stored_hash_of(decode_hash(self.tag_at(c, p), self.hash_at(c, p))),
            self.hash_at(c, p) & 0x5FFF_FFFF_FFFF_FFFFu64 != 0,
            self.hash_at(c, p) != 0,
    {
        assert(self.slot_ok(c, p));
        let h = decode_hash(self.tag_at(c, p), self.hash_at(c, p));
        lemma_stored_nonzero(h);
        let st = self.hash_at(c, p);
        lemma_u64_lanes(st, 0);
    }

    /// Overwriting the value of a key that the table holds keeps it well formed.
    proof fn lemma_value_update_wf(&self, before: &Self, c: int, p: int, hash: u64, value: V)
        requires
            before.wf(),
            0 <= c < before.chunk_count(),
            0 <= p < 8,
            before.tag_at(c, p) != 0,
            decode_hash(before.tag_at(c, p), before.hash_at(c, p)) == hash,
            self.chunks@ == before.chunks@.update(c, self.chunks@[c]),
            self.chunks@[c].tags@ == before.chunks@[c].tags@,
            self.chunks@[c].data@ == before.chunks@[c].data@.update(p, (before.hash_at(c, p), value)),
            self.contents@ == before.contents@.insert(hash, value),
            self.locations@ == before.locations@,
            self.size == before.size,
        ensures
            self.wf(),
    {
        let n = self.chunk_count();
        assert(n == before.chunk_count());
        assert(before.slot_ok(c, p));
        assert(self.contents@.dom() =~= before.contents@.dom());
        assert forall|c2: int, p2: int| 0 <= c2 < n && 0 <= p2 < 8 implies
            self.tag_at(c2, p2) == before.tag_at(c2, p2) && self.hash_at(c2, p2) == before.hash_at(c2, p2) by {
            if c2 == c {
            }
        }
        assert forall|c2: int| 0 <= c2 < n implies (#[trigger] self.chunk_full(c2) == before.chunk_full(c2)
            && self.chunk_overflowed(c2) == before.chunk_overflowed(c2)) by {
            self.lemma_tags_same_full(before, c2);
        }
        assert forall|c2: int| 0 <= c2 < n && #[trigger] self.chunk_overflowed(c2) implies self.chunk_full(c2) by {
            assert(self.chunk_full(c2) == before.chunk_full(c2) && self.chunk_overflowed(c2) == before.chunk_overflowed(c2));
            assert(before.chunk_overflowed(c2));
        }
        assert forall|c2: int, p2: int| 0 <= c2 < n && 0 <= p2 < 8 implies #[trigger] self.slot_ok(c2, p2) by {
            assert(before.slot_ok(c2, p2));
            if c2 == c && p2 == p {
            } else {
                if c2 != c {
                    assert(self.chunks@[c2] == before.chunks@[c2]);
                }
                assert(self.value_at(c2, p2) == before.value_at(c2, p2));
                if before.tag_at(c2, p2) != 0 {
                    let h2 = decode_hash(before.tag_at(c2, p2), before.hash_at(c2, p2));
                    assert(h2 != hash);
                }
            }
        }
        assert forall|h: u64| #[trigger] self.locations@.contains_key(h) implies self.key_ok(h) by {
            assert(before.key_ok(h));
            let hj = self.locations@[h].2;
            assert(hj == before.locations@[h].2);
            assert(forall|i: nat| i < hj ==> #[trigger] before.chunk_full(probe_chunk(h, i, before.chunk_count())));
            assert forall|i: nat| i < hj implies #[trigger] self.chunk_full(probe_chunk(h, i, n))
                && self.chunk_overflowed(probe_chunk(h, i, n)) by {
                let ci = probe_chunk(h, i, n);
                assert(before.chunk_full(ci));
                assert(before.chunk_full(ci) && before.chunk_overflowed(ci));
                assert(self.chunk_full(ci) == before.chunk_full(ci) && self.chunk_overflowed(ci) == before.chunk_overflowed(ci));
            }
        }
    }

    /// Claiming an empty slot for a new key at the first chunk of its probe
    /// path with room keeps the table well formed.
    proof fn lemma_insert_wf(&self, before: &Self, c: int, p: int, hash: u64, value: V, j: nat)
        requires
            before.wf(),
            0 <= c < before.chunk_count(),
            0 <= p < 8,
            before.tag_at(c, p) == 0,
            !before.contents@.contains_key(hash),
            j < before.chunk_count(),
            probe_chunk(hash, j, before.chunk_count()) == c,
            forall|i: nat| i < j ==> #[trigger] before.chunk_full(probe_chunk(hash, i, before.chunk_count()))
                && before.chunk_overflowed(probe_chunk(hash, i, before.chunk_count())),
            self.chunks@ == before.chunks@.update(c, self.chunks@[c]),
            self.chunks@[c].tags@ == before.chunks@[c].tags@.update(p, search_tag_of(hash)),
            self.chunks@[c].data@ == before.chunks@[c].data@.update(p, (stored_hash_of(hash), value)),
            self.contents@ == before.contents@.insert(hash, value),
            self.locations@ == before.locations@.insert(hash, (c, p, j)),
            self.size == before.size,
        ensures
            self.wf(),
    {
        let n = self.chunk_count();
        assert(n == before.chunk_count());
        assert(before.slot_ok(c, p));
        lemma_stored_nonzero(hash);
        lemma_decode(search_tag_of(hash), stored_hash_of(hash), hash);
        // The chunk had room, so it was neither full nor overflowed.
        assert(!before.chunk_full(c));
        assert(!before.chunk_overflowed(c));
        assert forall|c2: int| 0 <= c2 < n && c2 != c implies (self.chunk_full(c2) == before.chunk_full(c2)
            && self.chunk_overflowed(c2) == before.chunk_overflowed(c2)) by {
            assert(self.chunks@[c2] == before.chunks@[c2]);
            self.lemma_tags_same_full(before, c2);
        }
        assert(!self.chunk_overflowed(c)) by {
            if p == 7 {
                assert(self.hash_at(c, 7) == stored_hash_of(hash));
            } else {
                assert(self.hash_at(c, 7) == before.hash_at(c, 7));
            }
        }
        assert forall|c2: int, p2: int| 0 <= c2 < n && 0 <= p2 < 8 implies #[trigger] self.slot_ok(c2, p2) by {
            assert(before.slot_ok(c2, p2));
            if c2 == c && p2 == p {
                assert(self.tag_at(c, p) == search_tag_of(hash));
                assert(self.hash_at(c, p) == stored_hash_of(hash));
            } else {
                if c2 != c {
                    assert(self.chunks@[c2] == before.chunks@[c2]);
                }
                assert(self.tag_at(c2, p2) == before.tag_at(c2, p2));
                assert(self.hash_at(c2, p2) == before.hash_at(c2, p2));
                assert(self.value_at(c2, p2) == before.value_at(c2, p2));
                if before.tag_at(c2, p2) != 0 {
                    let h2 = decode_hash(before.tag_at(c2, p2), before.hash_at(c2, p2));
                    assert(h2 != hash);
                }
            }
        }
        assert forall|c2: int| 0 <= c2 < n && #[trigger] self.chunk_overflowed(c2) implies self.chunk_full(c2) by {
        }
        assert forall|h: u64| #[trigger] self.locations@.contains_key(h) implies self.key_ok(h) by {
            let (hc, hp, hj) = self.locations@[h];
            if h == hash {
                assert(self.tag_at(c, p) == search_tag_of(hash));
                assert(self.hash_at(c, p) == stored_hash_of(hash));
                assert forall|i: nat| i < hj implies #[trigger] self.chunk_full(probe_chunk(h, i, n))
                    && self.chunk_overflowed(probe_chunk(h, i, n)) by {
                    assert(before.chunk_full(probe_chunk(h, i, n)) && before.chunk_overflowed(probe_chunk(h, i, n)));
                }
            } else {
                assert(before.locations@.contains_key(h));
                assert(before.key_ok(h));
                assert(before.slot_ok(hc, hp));
                assert(hc != c || hp != p);
                if hc != c {
                    assert(self.chunks@[hc] == before.chunks@[hc]);
                }
                assert(self.tag_at(hc, hp) == before.tag_at(hc, hp));
                assert(self.hash_at(hc, hp) == before.hash_at(hc, hp));
                assert forall|i: nat| i < hj implies #[trigger] self.chunk_full(probe_chunk(h, i, n))
                    && self.chunk_overflowed(probe_chunk(h, i, n)) by {
                    assert(before.chunk_full(probe_chunk(h, i, n)) && before.chunk_overflowed(probe_chunk(h, i, n)));
                }
            }
        }
    }

    /// Marking a full chunk as overflowed keeps the table well formed and
    /// changes no tag.
    proof fn lemma_overflow_wf(&self, before: &Self, c: int)
        requires
            before.wf(),
            0 <= c < before.chunk_count(),
            before.chunk_full(c),
            self.chunks@ == before.chunks@.update(c, self.chunks@[c]),
            self.chunks@[c].tags@ == before.chunks@[c].tags@,
            self.chunks@[c].data@ == before.chunks@[c].data@.update(7,
                (before.hash_at(c, 7) | 0x8000_0000_0000_0000u64, before.value_at(c, 7))),
            self.contents@ == before.contents@,
            self.locations@ == before.locations@,
            self.size == before.size,
        ensures
            self.wf(),
            self.chunk_full(c),
            self.chunk_overflowed(c),
            forall|c2: int, p2: int| 0 <= c2 < self.chunk_count() && 0 <= p2 < 8 ==> #[trigger] self.tag_at(c2, p2) == before.tag_at(c2, p2),
            forall|c2: int| 0 <= c2 < self.chunk_count() ==> (#[trigger] self.chunk_full(c2) == before.chunk_full(c2)),
            forall|c2: int| 0 <= c2 < self.chunk_count() && #[trigger] before.chunk_overflowed(c2) ==> self.chunk_overflowed(c2),
    {
        let n = self.chunk_count();
        assert(n == before.chunk_count());
        lemma_overflow_bit_keeps_key(before.hash_at(c, 7));
        assert forall|c2: int, p2: int| 0 <= c2 < n && 0 <= p2 < 8 implies #[trigger] self.tag_at(c2, p2) == before.tag_at(c2, p2) by {
            if c2 != c {
                assert(self.chunks@[c2] == before.chunks@[c2]);
            }
        }
        assert forall|c2: int| 0 <= c2 < n implies (#[trigger] self.chunk_full(c2) == before.chunk_full(c2)) by {
            self.lemma_tags_same_full(before, c2);
        }
        assert forall|c2: int| 0 <= c2 < n && #[trigger] before.chunk_overflowed(c2) implies self.chunk_overflowed(c2) by {
            if c2 != c {
                assert(self.chunks@[c2] == before.chunks@[c2]);
            }
        }
        assert(self.chunk_full(c));
        assert forall|c2: int, p2: int| 0 <= c2 < n && 0 <= p2 < 8 implies #[trigger] self.slot_ok(c2, p2) by {
            assert(before.slot_ok(c2, p2));
            if c2 != c {
                assert(self.chunks@[c2] == before.chunks@[c2]);
            } else if p2 != 7 {
                assert(self.hash_at(c2, p2) == before.hash_at(c2, p2));
                assert(self.value_at(c2, p2) == before.value_at(c2, p2));
            } else {
                assert(before.tag_at(c, 7) != 0);
            }
        }
        assert forall|c2: int| 0 <= c2 < n && #[trigger] self.chunk_overflowed(c2) implies self.chunk_full(c2) by {
            if c2 != c {
                assert(self.chunks@[c2] == before.chunks@[c2]);
                assert(before.chunk_overflowed(c2));
                assert(before.chunk_full(c2));
                assert(self.chunk_full(c2) == before.chunk_full(c2));
            }
        }
        assert forall|h: u64| #[trigger] self.locations@.contains_key(h) implies self.key_ok(h) by {
            assert(before.locations@.contains_key(h));
            assert(before.key_ok(h));
            let (hc, hp, hj) = self.locations@[h];
            if hc != c {
                assert(self.chunks@[hc] == before.chunks@[hc]);
            } else if hp != 7 {
                assert(self.hash_at(hc, hp) == before.hash_at(hc, hp));
            }
            assert(hj == before.locations@[h].2);
            assert(forall|i: nat| i < hj ==> #[trigger] before.chunk_full(probe_chunk(h, i, before.chunk_count())));
            assert forall|i: nat| i < hj implies #[trigger] self.chunk_full(probe_chunk(h, i, n))
                && self.chunk_overflowed(probe_chunk(h, i, n)) by {
                let ci = probe_chunk(h, i, n);
                assert(before.chunk_full(ci));
                assert(before.chunk_full(ci) && before.chunk_overflowed(ci));
                assert(self.chunk_full(ci) == before.chunk_full(ci));
            }
        }
    }

    /// Writes `value` under `hash`. Returns the value it replaced (none when
    /// the key was new or held the empty value), or `Err(())` when the key is
    /// new and every chunk on its probe path is full. A chunk that the write
    /// has to step past is marked as overflowed.
    pub fn write(&mut self, hash: u64, value: V) -> (r: Result<Option<V>, ()>)
        requires
            old(self).wf(),
        ensures
            final(self).wf(),
            final(self).chunk_count() == old(self).chunk_count(),
            r matches Ok(prev) ==> final(self)@ == old(self)@.insert(hash, value) && prev == previous_value(old(self)@, hash),
            r is Err ==> final(self)@ == old(self)@,
            r is Err <==> (!old(self)@.contains_key(hash) && old(self).probe_full(hash)),
            final(self)@.dom().finite(),
            power_of_two(old(self).chunk_count()) ==> (r is Err <==> (!old(self)@.contains_key(hash)
                && old(self)@.len() == 8 * old(self).chunk_count())),
    {
        proof {
            self.lemma_key_count();
            if power_of_two(self.chunk_count()) {
                self.lemma_probe_full_iff_table_full(hash);
            }
        }
        let mut loaded_tags = [0u8; 8];
        let mut match_output = [0u8; 8];
        self.write_using_buffers(hash, value, &mut loaded_tags, &mut match_output)
    }

    /// [`FixedTable8::write`], with the scratch space for the tags of a chunk
    /// and for the comparison flags supplied by the caller; what they hold
    /// afterwards is unspecified.
    #[verifier::loop_isolation(false)]
    #[verifier::spinoff_prover]
    pub fn write_using_buffers(&mut self, hash: u64, value: V, loaded_tags: &mut [u8; 8], match_output: &mut [u8; 8])
        -> (r: Result<Option<V>, ()>)
        requires
            old(self).wf(),
        ensures
            final(self).wf(),
            final(self).chunk_count() == old(self).chunk_count(),
            r matches Ok(prev) ==> final(self)@ == old(self)@.insert(hash, value) && prev == previous_value(old(self)@, hash),
            r is Err ==> final(self)@ == old(self)@,
            r is Err <==> (!old(self)@.contains_key(hash) && old(self).probe_full(hash)),
            final(self)@.dom().finite(),
            power_of_two(old(self).chunk_count()) ==> (r is Err <==> (!old(self)@.contains_key(hash)
                && old(self)@.len() == 8 * old(self).chunk_count())),
    {
        proof {
            self.lemma_key_count();
            if power_of_two(self.chunk_count()) {
                self.lemma_probe_full_iff_table_full(hash);
            }
        }
        let n = self.chunks.len();
        let top_8_bits = (hash >> 56u64) as u8;
        let search_tag = if top_8_bits > 1 { top_8_bits } else { 1u8 };
        let stored_hash = hash & STORED_HASH_BIT_MASK | HASH_OCCUPIED_BIT;
        let stride_width = (top_8_bits as usize) * 2 + 1;
        let mut index = hash as usize;
        let mut attempts: usize = 0;
        proof {
            lemma_stored_nonzero(hash);
            assert(stored_hash == stored_hash_of(hash));
            assert(search_tag == search_tag_of(hash));
            lemma_u64_lanes(hash, 0);
            assert(stride_width == stride_of(hash));
        }

        while attempts < n
            invariant
                self.wf(),
                n == self.chunks@.len(),
                n == old(self).chunks@.len(),
                self@ == old(self)@,
                self.locations@ == old(self).locations@,
                forall|c: int, p: int| 0 <= c < n && 0 <= p < 8 ==> #[trigger] self.tag_at(c, p) == old(self).tag_at(c, p),
                attempts <= n,
                index == probe_index(hash, attempts as nat),
                forall|i: nat| i < attempts ==> #[trigger] self.chunk_full(probe_chunk(hash, i, n as int))
                    && self.chunk_overflowed(probe_chunk(hash, i, n as int)),
                old(self)@.contains_key(hash) ==> attempts <= old(self).locations@[hash].2,
            decreases n - attempts,
        {
            assert(self.wf());
            assert(attempts < n);
            assert(forall|i: nat| i < attempts ==> #[trigger] self.chunk_full(probe_chunk(hash, i, n as int)));
            let chunk_index = index % n;
            let mut chunk = self.chunks[chunk_index];
            let ghost c = chunk_index as int;
            let ghost s0 = *self;
            let ghost a0 = attempts as nat;
            assert(chunk == s0.chunks@[c]);
            assert forall|i: nat| i < a0 implies #[trigger] s0.chunk_full(probe_chunk(hash, i, n as int))
                && s0.chunk_overflowed(probe_chunk(hash, i, n as int)) by {
                assert(self.chunk_full(probe_chunk(hash, i, n as int)) && self.chunk_overflowed(probe_chunk(hash, i, n as int)));
            }
            assert(c == probe_chunk(hash, attempts as nat, n as int));
            *loaded_tags = chunk.tags;
            let mut q: usize = 0;
            while q < 8
                invariant
                    q <= 8,
                    forall|j: int| 0 <= j < q ==> #[trigger] match_output@[j] == (if loaded_tags@[j] == search_tag { 1u8 } else { 0u8 }),
                decreases 8 - q,
            {
                match_output.set(q, if loaded_tags[q] == search_tag { 1u8 } else { 0u8 });
                q += 1;
            }
            assert(all_bits(match_output@));
            assert(loaded_tags@ == chunk.tags@);

            // Look for the key among the slots whose tag matches.
            let mut bit_mask = IterableBitMask8::new(*match_output);
            loop
                invariant
                    *self == s0,
                    chunk == s0.chunks@[c],
                    forall|j: int| 0 <= j < 8 ==> #[trigger] match_output@[j] == (if chunk.tags@[j] == search_tag { 1u8 } else { 0u8 }),
                    only_be_flags(bit_mask@),
                    loaded_tags@ == chunk.tags@,
                    forall|j: int| 0 <= j < 8 ==> (#[trigger] be_flag(bit_mask@, j) ==> match_output@[j] == 1),
                    forall|j: int| 0 <= j < 8 && match_output@[j] == 1 && !be_flag(bit_mask@, j)
                        ==> !slot_holds(#[trigger] chunk.tags@[j], chunk.data@[j].0, hash),
                decreases bit_mask@,
            {
                let ghost mask_before = bit_mask@;
                match bit_mask.next_set_index() {
                    None => {
                        break;
                    },
                    Some(position) => {
                        assert(be_flag(mask_before, position as int));
                        assert(match_output@[position as int] == 1);
                        let item = chunk.data[position];
                        let masked_item_hash = item.0 & STORED_OCCUPIED_HASH_BIT_MASK;
                        assert(self.wf());
                        assert(0 <= c < self.chunk_count());
                        assert((position as int) < 8);
                        assert(self.slot_ok(c, position as int));
                        proof {
                            self.lemma_occupied_slot(c, position as int);
                        }
                        if masked_item_hash == stored_hash {
                            // Found the key: overwrite its value.
                            let previous = item.1;
                            proof {
                                lemma_slot_holds_decodes(chunk.tags@[position as int], item.0, hash);
                            }
                            chunk.data.set(position, (item.0, value));
                            let ghost before = *self;
                            self.chunks.set(chunk_index, chunk);
                            self.contents = Ghost(self.contents@.insert(hash, value));
                            proof {
                                self.lemma_value_update_wf(&before, c, position as int, hash, value);
                            }
                            return Ok(Self::default_to_option(previous));
                        } else if masked_item_hash == 0 {
                            loaded_tags.set(position, 0);
                        }
                    },
                }
            }

            // The key is not in this chunk: look for an empty slot.
            proof {
                assert(bit_mask@ == 0);
                assert forall|j: int| 0 <= j < 8 implies !slot_holds(#[trigger] chunk.tags@[j], chunk.data@[j].0, hash) by {
                    let k = (63 - 8 * j) as u64;
                    lemma_u64_lanes(0, k);
                    assert(!be_flag(bit_mask@, j));
                }
            }
            let mut q: usize = 0;
            while q < 8
                invariant
                    q <= 8,
                    forall|j: int| 0 <= j < q ==> #[trigger] match_output@[j] == (if loaded_tags@[j] == 0 { 1u8 } else { 0u8 }),
                decreases 8 - q,
            {
                match_output.set(q, if loaded_tags[q] == 0 { 1u8 } else { 0u8 });
                q += 1;
            }
            assert(all_bits(match_output@));
            let mut empty_mask = IterableBitMask8::new(*match_output);
            loop
                invariant
                    *self == s0,
                    chunk == s0.chunks@[c],
                    loaded_tags@ == chunk.tags@,
                    only_be_flags(empty_mask@),
                    forall|j: int| 0 <= j < 8 ==> (#[trigger] be_flag(empty_mask@, j) <==> match_output@[j] == 1),
                decreases empty_mask@,
            {
                match empty_mask.next_set_index() {
                    None => {
                        break;
                    },
                    Some(position) => {
                        let data = chunk.data[position];
                        assert(self.slot_ok(c, position as int));
                        if data.0 == 0 {
                            // Claim the empty slot.
                            let previous = data.1;
                            proof {
                                assert(old(self).tag_at(c, position as int) == 0);
                                assert(!old(self).chunk_full(c));
                                assert(!old(self).probe_full(hash));
                                assert(!s0.chunk_full(c));
                                if old(self)@.contains_key(hash) {
                                    assert(s0.locations@.contains_key(hash));
                                    assert(s0.key_ok(hash));
                                    let (hc, hp, hj) = s0.locations@[hash];
                                    if a0 < hj {
                                        assert(s0.chunk_full(probe_chunk(hash, a0, s0.chunk_count())));
                                    } else {
                                        assert(s0.slot_ok(hc, hp));
                                        assert(hc == c);
                                        assert(slot_holds(chunk.tags@[hp], chunk.data@[hp].0, hash));
                                    }
                                }
                            }
                            chunk.data.set(position, (stored_hash, value));
                            chunk.tags.set(position, search_tag);
                            let ghost before = *self;
                            self.chunks.set(chunk_index, chunk);
                            self.contents = Ghost(self.contents@.insert(hash, value));
                            self.locations = Ghost(self.locations@.insert(hash, (c, position as int, attempts as nat)));
                            proof {
                                self.lemma_insert_wf(&before, c, position as int, hash, value, attempts as nat);
                            }
                            return Ok(Self::default_to_option(previous));
                        } else if data.0 == stored_hash {
                            let previous = data.1;
                            chunk.data.set(position, (data.0, value));
                            self.chunks.set(chunk_index, chunk);
                            return Ok(Self::default_to_option(previous));
                        } else {
                            continue;
                        }
                    },
                }
            }

            // The chunk is full: probe to the next one, marking this one as overflowed.
            proof {
                assert(empty_mask@ == 0);
                assert forall|j: int| 0 <= j < 8 implies #[trigger] s0.tag_at(c, j) != 0 by {
                    let k = (63 - 8 * j) as u64;
                    lemma_u64_lanes(0, k);
                    assert(!be_flag(empty_mask@, j));
                    assert(match_output@[j] != 1);
                }
                assert(s0.chunk_full(c));
            }
            index = index.wrapping_add(stride_width);
            attempts += 1;
            let last = chunk.data[7];
            let overflow_bit = last.0 & OVERFLOW_BIT_MASK;
            if overflow_bit == 0 {
                chunk.data.set(7, (last.0 | OVERFLOW_BIT_MASK, last.1));
                let ghost before = *self;
                self.chunks.set(chunk_index, chunk);
                proof {
                    self.lemma_overflow_wf(&before, c);
                }
            }
            proof {
                if old(self)@.contains_key(hash) {
                    assert(s0.locations@.contains_key(hash));
                    assert(s0.key_ok(hash));
                    let (hc, hp, hj) = s0.locations@[hash];
                    if a0 == hj {
                        assert(s0.slot_ok(hc, hp));
                        assert(hc == c);
                        assert(slot_holds(chunk.tags@[hp], chunk.data@[hp].0, hash));
                    }
                }
                assert(self.chunk_full(c) && self.chunk_overflowed(c));
                assert forall|i: nat| i < attempts implies #[trigger] self.chunk_full(probe_chunk(hash, i, n as int))
                    && self.chunk_overflowed(probe_chunk(hash, i, n as int)) by {
                    if i < a0 {
                        assert(s0.chunk_full(probe_chunk(hash, i, n as int)));
                        assert(s0.chunk_overflowed(probe_chunk(hash, i, n as int)));
                    }
                }
            }
        }

        proof {
            if old(self)@.contains_key(hash) {
                assert(old(self).locations@.contains_key(hash));
                assert(old(self).key_ok(hash));
            }
            assert forall|i: nat| i < old(self).chunk_count() implies #[trigger] old(self).chunk_full(probe_chunk(hash, i, old(self).chunk_count())) by {
                let ci = probe_chunk(hash, i, n as int);
                assert(self.chunk_full(ci));
                assert(0 <= ci < n) by {
                    assert(n > 0);
                }
                self.lemma_tags_same_full(old(self), ci);
            }
        }
        Err(())
    }

    /// The entries of the first `p` slots of a chunk that an entry listing
    /// reports: the occupied ones, each with the hash rebuilt from its tag and
    /// its stored hash.
    pub open spec fn chunk_entries_upto(chunk: Chunk8<V>, p: int) -> Seq<(u64, V)>
        decreases p,
    {
        if p <= 0 {
            Seq::empty()
        } else {
            let before = Self::chunk_entries_upto(chunk, p - 1);
            let (stored, value) = chunk.data@[p - 1];
            if stored & 0x4000_0000_0000_0000u64 != 0 {
                before.push(((stored & 0x1FFF_FFFF_FFFF_FFFFu64) | ((chunk.tags@[p - 1] as u64) << 56u64), value))
            } else {
                before
            }
        }
    }

    /// The entries that a listing of the first `c` chunks reports: for each
    /// chunk, its first seven slots.
    pub open spec fn entries_upto(chunks: Seq<Chunk8<V>>, c: int) -> Seq<(u64, V)>
        decreases c,
    {
        if c <= 0 {
            Seq::empty()
        } else {
            Self::entries_upto(chunks, c - 1) + Self::chunk_entries_upto(chunks[c - 1], 7)
        }
    }

    /// The chunks, in order.
    pub closed spec fn chunks_view(&self) -> Seq<Chunk8<V>> {
        self.chunks@
    }

    /// Lists the occupied slots among the first seven of each chunk, chunk by
    /// chunk, with the hash rebuilt from the tag and the stored hash.
    pub fn entries(&self) -> (r: Vec<(u64, V)>)
        requires
            self.wf(),
        ensures
            r@ == Self::entries_upto(self.chunks_view(), self.chunk_count()),
            forall|hash: u64| #[trigger] self@.contains_key(hash) && self.slot_position(hash) < 7 ==> exists|k: int|
                0 <= k < r@.len() && r@[k] == (listed_hash(hash), self@[hash]),
            forall|k: int| 0 <= k < r@.len() ==> self.reports_key(#[trigger] r@[k]),
    {
        let mut result: Vec<(u64, V)> = Vec::new();
        let mut c: usize = 0;
        while c < self.chunks.len()
            invariant
                c <= self.chunks@.len(),
                result@ == Self::entries_upto(self.chunks@, c as int),
            decreases self.chunks@.len() - c,
        {
            let chunk = &self.chunks[c];
            let mut p: usize = 0;
            while p < 7
                invariant
                    p <= 7,
                    c < self.chunks@.len(),
                    *chunk == self.chunks@[c as int],
                    result@ == Self::entries_upto(self.chunks@, c as int) + Self::chunk_entries_upto(*chunk, p as int),
                decreases 7 - p,
            {
                let (stored, value) = chunk.data[p];
                let ghost before = result@;
                if stored & HASH_OCCUPIED_BIT != 0 {
                    let tag = chunk.tags[p];
                    result.push(((stored & STORED_HASH_BIT_MASK) | ((tag as u64) << 56u64), value));
                }
                proof {
                    let prefix = Self::entries_upto(self.chunks@, c as int);
                    let upto = Self::chunk_entries_upto(*chunk, p as int);
                    if stored & HASH_OCCUPIED_BIT != 0 {
                        assert(result@ =~= prefix + Self::chunk_entries_upto(*chunk, p as int + 1));
                    } else {
                        assert(result@ =~= prefix + Self::chunk_entries_upto(*chunk, p as int + 1));
                    }
                }
                p += 1;
            }
            proof {
                assert(Self::entries_upto(self.chunks@, c as int + 1)
                    == Self::entries_upto(self.chunks@, c as int) + Self::chunk_entries_upto(self.chunks@[c as int], 7));
            }
            c += 1;
        }
        proof {
            self.lemma_listing_reports_keys(result@);
        }
        result
    }

    /// The number of slots.
    pub fn size(&self) -> (r: usize)
        requires
            self.wf(),
        ensures
            r == 8 * self.chunk_count(),
    {
        self.size
    }
}

} // verus!

verus! {

/// The statistics of one lookup.
pub struct ReadStats {
    /// The number of chunks the lookup looked at.
    pub chunks_accessed: usize,
    /// The number of slots whose tag matched but whose hash did not.
    pub tag_false_positives: usize,
}

/// A table that no longer accepts writes; lookups stop at the first chunk
/// that no write had to step past.
pub struct ReadOnlyTable8<V> {
    chunk_mask: usize,
    table: FixedTable8<V>,
}

impl<V> View for ReadOnlyTable8<V> {
    type V = Map<u64, V>;

    closed spec fn view(&self) -> Map<u64, V> {
        self.table@
    }
}

impl<V: AsAtomic> FixedTable8<V> {
    /// Stops accepting writes.
    pub fn to_read_only(self) -> (r: ReadOnlyTable8<V>)
        requires
            self.wf(),
            self.chunk_count() > 0,
        ensures
            r.wf(),
            r@ == self@,
            r.chunk_count() == self.chunk_count(),
    {
        ReadOnlyTable8::new(self)
    }
}

impl<V: AsAtomic> ReadOnlyTable8<V> {
    /// The number of chunks.
    pub closed spec fn chunk_count(&self) -> int {
        self.table.chunk_count()
    }

    /// The table's internal invariant.
    pub closed spec fn wf(&self) -> bool {
        &&& self.table.wf()
        &&& self.table.chunk_count() > 0
        &&& self.chunk_mask == self.table.chunk_count() - 1
    }

    fn new(table: FixedTable8<V>) -> (r: Self)
        requires
            table.wf(),
            table.chunk_count() > 0,
        ensures
            r.wf(),
            r.table == table,
    {
        let chunk_mask = table.chunks.len() - 1;
        Self { chunk_mask, table }
    }

    /// The positions of the chunk whose tags equal `search_tag`.
    fn iter_matched_tags(search_tag: u8, chunk: &Chunk8<V>) -> (r: IterableBitMaskIntrinsics8)
        ensures
            only_lane_flags(r@),
            forall|i: int| 0 <= i < 8 ==> (#[trigger] lane_flag(r@, i) <==> chunk.tags@[i] == search_tag),
    {
        let value = u8x8_compare_eq_aarch64(search_tag, &chunk.tags);
        let r = IterableBitMaskIntrinsics8::new(value);
        proof {
            assert forall|i: int| 0 <= i < 8 implies (#[trigger] lane_flag(r@, i) <==> chunk.tags@[i] == search_tag) by {
                let k = (8 * i) as u64;
                let lane = (value >> k) & 0xFF;
                assert(lane == eq_lane(chunk.tags@[i], search_tag));
                lemma_u64_lanes(value, k);
            }
        }
        r
    }

    /// Looks up `hash`. A value returned is always the one stored under
    /// `hash`; when the chunk count is a power of two, a stored key is always
    /// found.
    #[verifier::loop_isolation(false)]
    pub fn get(&self, hash: u64) -> (r: Option<&V>)
        requires
            self.wf(),
        ensures
            r matches Some(v) ==> self@.contains_key(hash) && *v == self@[hash],
            power_of_two(self.chunk_count()) ==> (r is Some <==> self@.contains_key(hash)),
    {
        let chunks = &self.table.chunks;
        let n = chunks.len();
        let top_8_bits = (hash >> 56u64) as u8;
        let search_tag = if top_8_bits > 1 { top_8_bits } else { 1u8 };
        let stored_hash = hash & STORED_HASH_BIT_MASK | HASH_OCCUPIED_BIT;
        let stride_width = (top_8_bits as usize) * 2 + 1;
        let mut index = (hash as usize) & self.chunk_mask;
        let mut attempts: usize = 0;
        let ghost t = self.table;
        let ghost pow2 = power_of_two(n as int);
        proof {
            lemma_stored_nonzero(hash);
            lemma_u64_lanes(hash, 0);
            assert(stride_width == stride_of(hash));
            assert(stored_hash == stored_hash_of(hash));
            assert(search_tag == search_tag_of(hash));
            let m = self.chunk_mask;
            lemma_usize_mask(hash as usize, m, 0);
            if pow2 {
                lemma_mask_is_mod(hash as usize, n);
                lemma_probe_chunk_step(hash, 0, n as int);
            }
        }
        loop
            invariant
                attempts < n,
                index < n,
                pow2 ==> index == probe_chunk(hash, attempts as nat, n as int),
                pow2 && t@.contains_key(hash) ==> attempts <= t.locations@[hash].2,
            decreases n - attempts,
        {
            let chunk = &chunks[index];
            let ghost c = index as int;
            let mut bit_mask = Self::iter_matched_tags(search_tag, chunk);
            loop
                invariant
                    only_lane_flags(bit_mask@),
                    forall|j: int| 0 <= j < 8 && #[trigger] lane_flag(bit_mask@, j) ==> chunk.tags@[j] == search_tag,
                    forall|j: int| 0 <= j < 8 && chunk.tags@[j] == search_tag && !lane_flag(bit_mask@, j)
                        ==> !slot_holds(#[trigger] chunk.tags@[j], chunk.data@[j].0, hash),
                decreases bit_mask@,
            {
                let ghost mask_before = bit_mask@;
                match bit_mask.next_set_index() {
                    None => {
                        break;
                    },
                    Some(position) => {
                        assert(lane_flag(mask_before, position as int));
                        let item = &chunk.data[position];
                        if item.0 & STORED_OCCUPIED_HASH_BIT_MASK == stored_hash {
                            proof {
                                assert(t.slot_ok(c, position as int));
                                lemma_slot_holds_decodes(chunk.tags@[position as int], item.0, hash);
                            }
                            return Some(&item.1);
                        }
                    },
                }
            }
            proof {
                assert(bit_mask@ == 0);
                assert forall|j: int| 0 <= j < 8 implies !slot_holds(#[trigger] chunk.tags@[j], chunk.data@[j].0, hash) by {
                    let k = (8 * j) as u64;
                    lemma_u64_lanes(0, k);
                    assert(!lane_flag(bit_mask@, j));
                }
                if pow2 && t@.contains_key(hash) {
                    assert(t.locations@.contains_key(hash));
                    assert(t.key_ok(hash));
                    let (hc, hp, hj) = t.locations@[hash];
                    if (attempts as nat) < hj {
                        assert(t.chunk_full(probe_chunk(hash, attempts as nat, t.chunk_count())));
                        assert(t.chunk_overflowed(c));
                    } else {
                        assert(t.slot_ok(hc, hp));
                        assert(slot_holds(chunk.tags@[hp], chunk.data@[hp].0, hash));
                    }
                }
            }

            // If the overflow bit isn't set we can stop early.
            let overflow_bit = chunk.data[7].0 & OVERFLOW_BIT_MASK;
            if overflow_bit == 0 {
                return None;
            }

            let ghost old_index = index;
            proof {
                let m = self.chunk_mask;
                let x = (index + stride_width) as usize;
                lemma_usize_mask(x, m, 0);
                if pow2 {
                    lemma_mask_is_mod(x, n);
                    lemma_probe_chunk_step(hash, attempts as nat, n as int);
                }
            }
            index = (index + stride_width) & self.chunk_mask;
            attempts += 1;
            if attempts >= n {
                break;
            }
        }
        None
    }

    /// The chunk that a lookup of `hash` reads at step `k`: the hash under
    /// the chunk mask, then each step a stride further, under the mask.
    pub closed spec fn read_chunk(&self, hash: u64, k: nat) -> int
        decreases k,
    {
        if k == 0 {
            ((hash as usize) & self.chunk_mask) as int
        } else {
            (((self.read_chunk(hash, (k - 1) as nat) + stride_of(hash)) as usize) & self.chunk_mask) as int
        }
    }

    /// Position `q` of chunk `c` carries the tag of `hash`.
    spec fn read_tag_matches(&self, c: int, q: int, hash: u64) -> bool {
        self.table.chunks@[c].tags@[q] == search_tag_of(hash)
    }

    /// Position `q` of chunk `c` holds `hash`.
    spec fn read_holds(&self, c: int, q: int, hash: u64) -> bool {
        slot_holds(self.table.chunks@[c].tags@[q], self.table.chunks@[c].data@[q].0, hash)
    }

    /// The number of the first `p` positions of chunk `c` that carry the tag
    /// of `hash` but do not hold it and come before the first position that
    /// holds it.
    spec fn chunk_false_positives(&self, c: int, hash: u64, p: int) -> nat
        decreases p,
    {
        if p <= 0 {
            0
        } else {
            let before = self.chunk_false_positives(c, hash, p - 1);
            if exists|q: int| 0 <= q < p - 1 && #[trigger] self.read_holds(c, q, hash) {
                before
            } else {
                before + if self.read_tag_matches(c, p - 1, hash) && !self.read_holds(c, p - 1, hash) { 1nat } else { 0nat }
            }
        }
    }

    proof fn lemma_chunk_false_positives_stay(&self, c: int, hash: u64, p: int, k: int)
        requires
            0 <= p < k,
            self.read_holds(c, p, hash),
        ensures
            self.chunk_false_positives(c, hash, k) == self.chunk_false_positives(c, hash, p),
        decreases k - p,
    {
        if k > p + 1 {
            self.lemma_chunk_false_positives_stay(c, hash, p, k - 1);
            assert(self.read_holds(c, p, hash));
        } else {
            if !(exists|q: int| 0 <= q < p && #[trigger] self.read_holds(c, q, hash)) {
                assert(!(self.read_tag_matches(c, p, hash) && !self.read_holds(c, p, hash)));
            }
        }
    }

    proof fn lemma_chunk_false_positives_skip(&self, c: int, hash: u64, a: int, b: int)
        requires
            0 <= a <= b,
            forall|q: int| a <= q < b ==> !#[trigger] self.read_tag_matches(c, q, hash),
        ensures
            self.chunk_false_positives(c, hash, b) == self.chunk_false_positives(c, hash, a),
        decreases b - a,
    {
        if b > a {
            self.lemma_chunk_false_positives_skip(c, hash, a, b - 1);
            assert(!self.read_tag_matches(c, b - 1, hash));
        }
    }

    proof fn lemma_chunk_false_positives_bound(&self, c: int, hash: u64, p: int)
        requires
            p >= 0,
        ensures
            self.chunk_false_positives(c, hash, p) <= p,
        decreases p,
    {
        if p > 0 {
            self.lemma_chunk_false_positives_bound(c, hash, p - 1);
        }
    }

    /// A lookup of `hash` stops at chunk `c`: it holds `hash`, or no write
    /// stepped past it.
    spec fn read_stops_at(&self, c: int, hash: u64) -> bool {
        ||| exists|q: int| 0 <= q < 8 && #[trigger] self.read_holds(c, q, hash)
        ||| self.table.chunks@[c].data@[7].0 & OVERFLOW_BIT_MASK == 0
    }

    /// The number of chunks a lookup of `hash` reports having looked at,
    /// from step `k` of its probe on: one more than the step at which it
    /// stops, and two more than the last step when it stops at none.
    pub closed spec fn read_chunks_accessed(&self, hash: u64, k: nat) -> nat
        decreases self.chunk_count() - k,
    {
        let c = self.read_chunk(hash, k);
        if self.read_stops_at(c, hash) {
            k + 1
        } else if k + 1 >= self.chunk_count() {
            k + 2
        } else {
            self.read_chunks_accessed(hash, k + 1)
        }
    }

    /// The number of slots whose tag matched but that did not hold `hash`
    /// that a lookup of `hash` meets from step `k` of its probe on.
    pub closed spec fn read_false_positives(&self, hash: u64, k: nat) -> nat
        decreases self.chunk_count() - k,
    {
        let c = self.read_chunk(hash, k);
        let here = self.chunk_false_positives(c, hash, 8);
        if self.read_stops_at(c, hash) || k + 1 >= self.chunk_count() {
            here
        } else {
            here + self.read_false_positives(hash, k + 1)
        }
    }

    proof fn lemma_read_false_positives_bound(&self, hash: u64, k: nat)
        requires
            k < self.chunk_count(),
        ensures
            self.read_false_positives(hash, k) <= 8 * (self.chunk_count() - k),
        decreases self.chunk_count() - k,
    {
        let c = self.read_chunk(hash, k);
        self.lemma_chunk_false_positives_bound(c, hash, 8);
        if !(self.read_stops_at(c, hash) || k + 1 >= self.chunk_count()) {
            self.lemma_read_false_positives_bound(hash, k + 1);
        }
    }

    /// Looks up `hash` as [`ReadOnlyTable8::get`] does, and also counts the
    /// chunks it looked at and the slots whose tag matched but whose hash did
    /// not.
    #[verifier::loop_isolation(false)]
    pub fn measure_get_stats(&self, hash: u64) -> (r: (Option<&V>, ReadStats))
        requires
            self.wf(),
        ensures
            r.0 matches Some(v) ==> self@.contains_key(hash) && *v == self@[hash],
            power_of_two(self.chunk_count()) ==> (r.0 is Some <==> self@.contains_key(hash)),
            r.1.chunks_accessed == self.read_chunks_accessed(hash, 0),
            r.1.tag_false_positives == self.read_false_positives(hash, 0),
    {
        let chunks = &self.table.chunks;
        let n = chunks.len();
        let top_8_bits = (hash >> 56u64) as u8;
        let search_tag = if top_8_bits > 1 { top_8_bits } else { 1u8 };
        let stored_hash = hash & STORED_HASH_BIT_MASK | HASH_OCCUPIED_BIT;
        let stride_width = (top_8_bits as usize) * 2 + 1;
        let mut index = (hash as usize) & self.chunk_mask;
        let mut attempts: usize = 0;
        let mut tag_false_positives: usize = 0;
        let ghost t = self.table;
        let ghost pow2 = power_of_two(n as int);
        proof {
            lemma_stored_nonzero(hash);
            lemma_u64_lanes(hash, 0);
            assert(stride_width == stride_of(hash));
            assert(stored_hash == stored_hash_of(hash));
            assert(search_tag == search_tag_of(hash));
            let m = self.chunk_mask;
            lemma_usize_mask(hash as usize, m, 0);
            if pow2 {
                lemma_mask_is_mod(hash as usize, n);
                lemma_probe_chunk_step(hash, 0, n as int);
            }
            self.lemma_read_false_positives_bound(hash, 0);
        }
        loop
            invariant
                attempts < n,
                index < n,
                index == self.read_chunk(hash, attempts as nat),
                pow2 ==> index == probe_chunk(hash, attempts as nat, n as int),
                pow2 && t@.contains_key(hash) ==> attempts <= t.locations@[hash].2,
                self.read_chunks_accessed(hash, 0) == self.read_chunks_accessed(hash, attempts as nat),
                tag_false_positives + self.read_false_positives(hash, attempts as nat) == self.read_false_positives(hash, 0),
                self.read_false_positives(hash, 0) <= 8 * n,
                8 * n <= usize::MAX,
            decreases n - attempts,
        {
            let chunk = &chunks[index];
            let ghost c = index as int;
            let mut bit_mask = Self::iter_matched_tags(search_tag, chunk);
            let ghost mut scanned: int = 0;
            proof {
                self.lemma_chunk_false_positives_bound(c, hash, 8);
                if !(self.read_stops_at(c, hash) || attempts + 1 >= self.chunk_count()) {
                    assert(self.read_false_positives(hash, attempts as nat)
                        == self.chunk_false_positives(c, hash, 8) + self.read_false_positives(hash, (attempts + 1) as nat));
                }
            }
            let ghost fp_before = tag_false_positives;
            loop
                invariant
                    only_lane_flags(bit_mask@),
                    forall|j: int| 0 <= j < 8 && #[trigger] lane_flag(bit_mask@, j) ==> chunk.tags@[j] == search_tag,
                    forall|j: int| 0 <= j < 8 && chunk.tags@[j] == search_tag && !lane_flag(bit_mask@, j)
                        ==> !slot_holds(#[trigger] chunk.tags@[j], chunk.data@[j].0, hash),
                    0 <= scanned <= 8,
                    forall|j: int| 0 <= j < 8 && #[trigger] lane_flag(bit_mask@, j) ==> scanned <= j,
                    forall|j: int| scanned <= j < 8 && self.read_tag_matches(c, j, hash) ==> #[trigger] lane_flag(bit_mask@, j),
                    forall|j: int| 0 <= j < scanned ==> !#[trigger] self.read_holds(c, j, hash),
                    tag_false_positives == fp_before + self.chunk_false_positives(c, hash, scanned),
                decreases bit_mask@,
            {
                let ghost mask_before = bit_mask@;
                match bit_mask.next_set_index() {
                    None => {
                        proof {
                            assert forall|j: int| scanned <= j < 8 implies !#[trigger] self.read_tag_matches(c, j, hash) by {
                                if self.read_tag_matches(c, j, hash) {
                                    assert(lane_flag(mask_before, j));
                                    lemma_u64_lanes(0, (8 * j) as u64);
                                }
                            }
                            self.lemma_chunk_false_positives_skip(c, hash, scanned, 8);
                        }
                        break;
                    },
                    Some(position) => {
                        assert(lane_flag(mask_before, position as int));
                        proof {
                            let p = position as int;
                            assert forall|j: int| scanned <= j < p implies !#[trigger] self.read_tag_matches(c, j, hash) by {
                                if self.read_tag_matches(c, j, hash) {
                                    assert(lane_flag(mask_before, j));
                                }
                            }
                            self.lemma_chunk_false_positives_skip(c, hash, scanned, p);
                        }
                        let item = &chunk.data[position];
                        if item.0 & STORED_OCCUPIED_HASH_BIT_MASK == stored_hash {
                            proof {
                                assert(t.slot_ok(c, position as int));
                                lemma_slot_holds_decodes(chunk.tags@[position as int], item.0, hash);
                                let p = position as int;
                                assert(self.read_holds(c, p, hash));
                                self.lemma_chunk_false_positives_stay(c, hash, p, 8);
                                assert(self.read_stops_at(c, hash));
                            }
                            return (Some(&item.1), ReadStats { chunks_accessed: attempts + 1, tag_false_positives });
                        } else {
                            proof {
                                let p = position as int;
                                assert(!self.read_holds(c, p, hash));
                                assert(!(exists|q: int| 0 <= q < p && #[trigger] self.read_holds(c, q, hash)));
                                assert(self.chunk_false_positives(c, hash, p + 1) == self.chunk_false_positives(c, hash, p) + 1);
                                self.lemma_chunk_false_positives_bound(c, hash, p + 1);
                                scanned = p + 1;
                            }
                            tag_false_positives = tag_false_positives.saturating_add(1);
                        }
                    },
                }
            }
            proof {
                assert(bit_mask@ == 0);
                assert forall|j: int| 0 <= j < 8 implies !slot_holds(#[trigger] chunk.tags@[j], chunk.data@[j].0, hash) by {
                    let k = (8 * j) as u64;
                    lemma_u64_lanes(0, k);
                    assert(!lane_flag(bit_mask@, j));
                }
                assert(!(exists|q: int| 0 <= q < 8 && #[trigger] self.read_holds(c, q, hash))) by {
                    if exists|q: int| 0 <= q < 8 && #[trigger] self.read_holds(c, q, hash) {
                        let q = choose|q: int| 0 <= q < 8 && #[trigger] self.read_holds(c, q, hash);
                        assert(!slot_holds(chunk.tags@[q], chunk.data@[q].0, hash));
                    }
                }
                if pow2 && t@.contains_key(hash) {
                    assert(t.locations@.contains_key(hash));
                    assert(t.key_ok(hash));
                    let (hc, hp, hj) = t.locations@[hash];
                    if (attempts as nat) < hj {
                        assert(t.chunk_full(probe_chunk(hash, attempts as nat, t.chunk_count())));
                        assert(t.chunk_overflowed(c));
                    } else {
                        assert(t.slot_ok(hc, hp));
                        assert(slot_holds(chunk.tags@[hp], chunk.data@[hp].0, hash));
                    }
                }
            }

            // If the overflow bit isn't set we can stop early.
            let overflow_bit = chunk.data[7].0 & OVERFLOW_BIT_MASK;
            if overflow_bit == 0 {
                return (None, ReadStats { chunks_accessed: attempts + 1, tag_false_positives });
            }

            let ghost old_index = index;
            proof {
                let m = self.chunk_mask;
                let x = (index + stride_width) as usize;
                lemma_usize_mask(x, m, 0);
                if pow2 {
                    lemma_mask_is_mod(x, n);
                    lemma_probe_chunk_step(hash, attempts as nat, n as int);
                }
            }
            index = (index + stride_width) & self.chunk_mask;
            attempts += 1;
            if attempts >= n {
                break;
            }
        }
        (None, ReadStats { chunks_accessed: attempts + 1, tag_false_positives })
    }
}

/// A write is read back: in a table whose chunk count is a power of two, a
/// lookup of the hash that `value` was last written under gives `value`, and
/// a lookup of another hash gives what the table held for it before the
/// write.
pub proof fn lemma_read_after_write<V: AsAtomic>(
    before: Map<u64, V>,
    table: &ReadOnlyTable8<V>,
    written: u64,
    value: V,
    hash: u64,
    r: Option<&V>,
)
    requires
        table.wf(),
        power_of_two(table.chunk_count()),
        table@ == before.insert(written, value),
        r matches Some(v) ==> table@.contains_key(hash) && *v == table@[hash],
        r is Some <==> table@.contains_key(hash),
    ensures
        hash == written ==> (r matches Some(v) && *v == value),
        hash != written ==> {
            &&& (r is Some <==> before.contains_key(hash))
            &&& (r matches Some(v) ==> *v == before[hash])
        },
{
}

} // verus!
