//! The order in which a table visits its groups while looking for a key.
//!
//! A probe starts at slot `hash & bucket_mask`; each step moves the start of
//! the group forward and wraps it around the table. The slot positions are
//! not aligned to groups: a group is any run of `GROUP_SIZE` consecutive
//! slots.

use vstd::prelude::*;
use vstd::arithmetic::div_mod::{lemma_add_mod_noop, lemma_add_mod_noop_right, lemma_mod_bound, lemma_small_mod,
    lemma_fundamental_div_mod, lemma_fundamental_div_mod_converse, lemma_mul_mod_noop_left};
use crate::power_of_two::{power_of_two, usize_range, lemma_pow2_div, lemma_mod_usize_range_then_mod, lemma_odd_inverse,
    lemma_mod_shift, lemma_mask_is_mod};
use crate::destination::{triangle, lemma_triangle_covers};

verus! {

/// The first slot of the group and the state after `step` steps of a
/// probe for `hash` with `search_tag`.
pub open spec fn probe_at<P: ProbeSequence>(hash: u64, search_tag: u8, bucket_mask: usize, step: nat) -> (usize, usize)
    decreases step,
{
    if step == 0 {
        (P::spec_start_index(hash, bucket_mask), P::spec_initial_stride(hash, bucket_mask))
    } else {
        let previous = probe_at::<P>(hash, search_tag, bucket_mask, (step - 1) as nat);
        P::spec_next(previous.0, search_tag, previous.1, bucket_mask)
    }
}

/// The slot at position `p` of the group of step `step`.
pub open spec fn probe_slot_at<P: ProbeSequence>(hash: u64, search_tag: u8, bucket_mask: usize, step: nat, p: int) -> int {
    (probe_at::<P>(hash, search_tag, bucket_mask, step).0 as int + p) % (bucket_mask + 1)
}

/// A wrapped sum leaves the same remainder as the plain one, modulo a power
/// of two that fits a `usize`.
pub(crate) proof fn lemma_wrapping_add_mod(a: usize, b: usize, cap: int)
    requires
        power_of_two(cap),
        cap <= usize::MAX,
    ensures
        (vstd::wrapping::usize_specs::wrapping_add(a, b) as int) % cap == (a + b) % cap,
{
    let wa = vstd::wrapping::usize_specs::wrapping_add(a, b);
    assert(wa as int == (a + b) % usize_range()) by {
        if a + b > usize::MAX {
            lemma_fundamental_div_mod_converse(a + b, usize_range(), 1, a + b - usize_range());
        } else {
            lemma_small_mod((a + b) as nat, usize_range() as nat);
        }
    }
    lemma_mod_usize_range_then_mod(a + b, cap);
}

/// A wrapped product leaves the same remainder as the plain one, modulo a
/// power of two that fits a `usize`.
proof fn lemma_wrapping_mul_mod(a: usize, b: usize, cap: int)
    requires
        power_of_two(cap),
        cap <= usize::MAX,
    ensures
        (vstd::wrapping::usize_specs::wrapping_mul(a, b) as int) % cap == (a * b) % cap,
{
    lemma_mod_usize_range_then_mod(a * b, cap);
}

/// Masking by `cap - 1` and wrapping: the next position of a probe, as a
/// remainder.
proof fn lemma_masked_step(index: usize, step: usize, bucket_mask: usize)
    requires
        power_of_two(bucket_mask + 1),
        bucket_mask < usize::MAX,
    ensures
        (vstd::wrapping::usize_specs::wrapping_add(index, step) & bucket_mask) as int
            == (index + step) % (bucket_mask + 1),
{
    let cap = (bucket_mask + 1) as usize;
    lemma_mask_is_mod(vstd::wrapping::usize_specs::wrapping_add(index, step), cap);
    lemma_wrapping_add_mod(index, step, cap as int);
}

/// A way of stepping from one group to the next.
pub trait ProbeSequence {
    /// The first slot of the first group.
    spec fn spec_start_index(hash: u64, bucket_mask: usize) -> usize;

    /// The state carried from one step to the next at the start.
    spec fn spec_initial_stride(hash: u64, bucket_mask: usize) -> usize;

    /// The first slot of the next group and the state after the step.
    spec fn spec_next(index: usize, search_tag: u8, stride: usize, bucket_mask: usize) -> (usize, usize);

    /// Every position lies inside the table.
    proof fn lemma_in_table(hash: u64, index: usize, search_tag: u8, stride: usize, bucket_mask: usize)
        ensures
            Self::spec_start_index(hash, bucket_mask) <= bucket_mask,
            Self::spec_next(index, search_tag, stride, bucket_mask).0 <= bucket_mask,
    ;

    /// The top bit of the hash does not change where a probe starts in a
    /// table of at most 2^63 slots.
    proof fn lemma_start_ignores_top_bit(hash: u64, bucket_mask: usize)
        requires
            bucket_mask < 0x8000_0000_0000_0000u64,
        ensures
            Self::spec_start_index(hash, bucket_mask) == Self::spec_start_index(hash | 0x8000_0000_0000_0000u64, bucket_mask),
            Self::spec_initial_stride(hash, bucket_mask) == Self::spec_initial_stride(hash | 0x8000_0000_0000_0000u64, bucket_mask),
    ;

    /// The first slot and the initial state.
    fn start(hash: u64, bucket_mask: usize) -> (r: (usize, usize))
        ensures
            r == (Self::spec_start_index(hash, bucket_mask), Self::spec_initial_stride(hash, bucket_mask)),
    ;

    /// The first slot.
    fn start_index(hash: u64, bucket_mask: usize) -> (r: usize)
        ensures
            r == Self::spec_start_index(hash, bucket_mask),
    ;

    /// The initial state.
    fn initial_stride(hash: u64, bucket_mask: usize) -> (r: usize)
        ensures
            r == Self::spec_initial_stride(hash, bucket_mask),
    ;

    /// Steps to the next group and updates the state.
    fn next(index: usize, search_tag: u8, stride: &mut usize, bucket_mask: usize) -> (r: usize)
        ensures
            (r, *final(stride)) == Self::spec_next(index, search_tag, *old(stride), bucket_mask),
    ;
}

/// Steps by an odd number of whole groups, the odd number taken from the
/// tag: `2 * tag + 1` groups at each step.
pub struct HybridProbeSequence<const GROUP_SIZE: usize>;

/// The distance between the groups that a hybrid probe with this tag visits.
pub open spec fn hybrid_step(search_tag: u8, group_size: usize) -> usize {
    vstd::wrapping::usize_specs::wrapping_mul(((search_tag as int) * 2 + 1) as usize, group_size)
}

impl<const GROUP_SIZE: usize> ProbeSequence for HybridProbeSequence<GROUP_SIZE> {
    open spec fn spec_start_index(hash: u64, bucket_mask: usize) -> usize {
        hash as usize & bucket_mask
    }

    open spec fn spec_initial_stride(hash: u64, bucket_mask: usize) -> usize {
        0
    }

    open spec fn spec_next(index: usize, search_tag: u8, stride: usize, bucket_mask: usize) -> (usize, usize) {
        (vstd::wrapping::usize_specs::wrapping_add(index, hybrid_step(search_tag, GROUP_SIZE)) & bucket_mask, stride)
    }

    proof fn lemma_in_table(hash: u64, index: usize, search_tag: u8, stride: usize, bucket_mask: usize) {
        let a = hash as usize;
        let b = vstd::wrapping::usize_specs::wrapping_add(index, hybrid_step(search_tag, GROUP_SIZE));
        crate::bit_facts::lemma_usize_mask(a, bucket_mask, 0);
        crate::bit_facts::lemma_usize_mask(b, bucket_mask, 0);
    }

    proof fn lemma_start_ignores_top_bit(hash: u64, bucket_mask: usize) {
        let a = hash as usize;
        let b = (hash | 0x8000_0000_0000_0000u64) as usize;
        crate::bit_facts::lemma_usize_mask(a, bucket_mask, hash);
    }

    fn start(hash: u64, bucket_mask: usize) -> (r: (usize, usize)) {
        (hash as usize & bucket_mask, 0)
    }

    fn start_index(hash: u64, bucket_mask: usize) -> (r: usize) {
        hash as usize & bucket_mask
    }

    fn initial_stride(hash: u64, bucket_mask: usize) -> (r: usize) {
        0
    }

    fn next(index: usize, search_tag: u8, stride: &mut usize, bucket_mask: usize) -> (r: usize) {
        let step = ((search_tag as usize) * 2 + 1).wrapping_mul(GROUP_SIZE);
        index.wrapping_add(step) & bucket_mask
    }
}

/// Steps by a growing number of slots, as SwissTable does: one group more
/// at each step, so that the steps are the triangular numbers of groups.
pub struct SwissTableProbeSeq<const GROUP_SIZE: usize>;

impl<const GROUP_SIZE: usize> ProbeSequence for SwissTableProbeSeq<GROUP_SIZE> {
    open spec fn spec_start_index(hash: u64, bucket_mask: usize) -> usize {
        hash as usize & bucket_mask
    }

    open spec fn spec_initial_stride(hash: u64, bucket_mask: usize) -> usize {
        0
    }

    open spec fn spec_next(index: usize, search_tag: u8, stride: usize, bucket_mask: usize) -> (usize, usize) {
        let new_stride = vstd::wrapping::usize_specs::wrapping_add(stride, GROUP_SIZE);
        (vstd::wrapping::usize_specs::wrapping_add(index, new_stride) & bucket_mask, new_stride)
    }

    proof fn lemma_in_table(hash: u64, index: usize, search_tag: u8, stride: usize, bucket_mask: usize) {
        let a = hash as usize;
        let new_stride = vstd::wrapping::usize_specs::wrapping_add(stride, GROUP_SIZE);
        let b = vstd::wrapping::usize_specs::wrapping_add(index, new_stride);
        crate::bit_facts::lemma_usize_mask(a, bucket_mask, 0);
        crate::bit_facts::lemma_usize_mask(b, bucket_mask, 0);
    }

    proof fn lemma_start_ignores_top_bit(hash: u64, bucket_mask: usize) {
        let a = hash as usize;
        let b = (hash | 0x8000_0000_0000_0000u64) as usize;
        crate::bit_facts::lemma_usize_mask(a, bucket_mask, hash);
    }

    fn start(hash: u64, bucket_mask: usize) -> (r: (usize, usize)) {
        (hash as usize & bucket_mask, 0)
    }

    fn start_index(hash: u64, bucket_mask: usize) -> (r: usize) {
        hash as usize & bucket_mask
    }

    fn initial_stride(hash: u64, bucket_mask: usize) -> (r: usize) {
        0
    }

    fn next(index: usize, search_tag: u8, stride: &mut usize, bucket_mask: usize) -> (r: usize) {
        *stride = stride.wrapping_add(GROUP_SIZE);
        index.wrapping_add(*stride) & bucket_mask
    }
}


/// After `k` steps, a hybrid probe starts `k` strides past its first slot,
/// around the table.
proof fn lemma_hybrid_position<const G: usize>(hash: u64, search_tag: u8, bucket_mask: usize, k: nat)
    requires
        power_of_two(bucket_mask + 1),
        bucket_mask < usize::MAX,
    ensures
        probe_at::<HybridProbeSequence<G>>(hash, search_tag, bucket_mask, k).0 as int
            == ((hash as usize) as int % (bucket_mask + 1) + k * ((search_tag as int * 2 + 1) * G as int)) % (bucket_mask + 1),
    decreases k,
{
    let cap = bucket_mask + 1;
    let st = (hash as usize) as int % cap;
    let sg = (search_tag as int * 2 + 1) * G as int;
    lemma_mod_bound((hash as usize) as int, cap);
    lemma_mask_is_mod(hash as usize, cap as usize);
    if k == 0 {
        lemma_small_mod(st as nat, cap as nat);
        assert(st + 0 * sg == st) by (nonlinear_arith);
    } else {
        lemma_hybrid_position::<G>(hash, search_tag, bucket_mask, (k - 1) as nat);
        let prev = probe_at::<HybridProbeSequence<G>>(hash, search_tag, bucket_mask, (k - 1) as nat).0;
        let x = st + (k - 1) * sg;
        let w = hybrid_step(search_tag, G);
        lemma_masked_step(prev, w, bucket_mask);
        lemma_wrapping_mul_mod(((search_tag as int) * 2 + 1) as usize, G, cap);
        lemma_add_mod_noop(prev as int, w as int, cap);
        lemma_add_mod_noop(prev as int, sg, cap);
        lemma_add_mod_noop_right(sg, x, cap);
        assert(x + sg == st + k * sg) by (nonlinear_arith)
            requires x == st + (k - 1) * sg;
        assert((prev as int % cap) == prev as int) by {
            lemma_mod_bound(x, cap);
            lemma_small_mod(prev as nat, cap as nat);
        }
        assert((sg + prev as int) % cap == (prev as int + sg) % cap);
    }
}

/// The groups of a hybrid probe's first `slots / G` steps cover the table.
pub(crate) proof fn lemma_hybrid_covers<const G: usize>(hash: u64, search_tag: u8, bucket_mask: usize, slot: int)
    requires
        power_of_two(bucket_mask + 1),
        bucket_mask < usize::MAX,
        power_of_two(G as int),
        G <= bucket_mask + 1,
        0 <= slot <= bucket_mask,
    ensures
        exists|j: nat, p: int| j < (bucket_mask + 1) / (G as int) && 0 <= p < G
            && #[trigger] probe_slot_at::<HybridProbeSequence<G>>(hash, search_tag, bucket_mask, j, p) == slot,
{
    let cap = bucket_mask + 1;
    let g = G as int;
    lemma_pow2_div(cap, g);
    let chunks = cap / g;
    let e = choose|e: nat| #[trigger] vstd::arithmetic::power2::pow2(e) == chunks;
    vstd::arithmetic::power2::lemma_pow2_pos(e);
    let s = search_tag as int * 2 + 1;
    let st = (hash as usize) as int % cap;
    lemma_mod_bound((hash as usize) as int, cap);
    let d = (slot - st) % cap;
    lemma_mod_bound(slot - st, cap);
    let q = d / g;
    let o = d % g;
    lemma_fundamental_div_mod(d, g);
    lemma_mod_bound(d, g);
    assert(0 <= q < chunks) by (nonlinear_arith)
        requires
            d == g * q + o,
            0 <= o < g,
            0 <= d < cap,
            cap == chunks * g,
            g > 0;
    let (u, m) = lemma_odd_inverse(s, e);
    let k = (q * u) % chunks;
    lemma_mod_bound(q * u, chunks);
    lemma_mul_mod_noop_left(q * u, s, chunks);
    assert(q * u * s == q + (q * m) * chunks) by (nonlinear_arith)
        requires
            s * u == 1 + m * chunks;
    lemma_mod_shift(q, q * m, chunks);
    lemma_small_mod(q as nat, chunks as nat);
    assert((k * s) % chunks == q);
    let t = (k * s) / chunks;
    lemma_fundamental_div_mod(k * s, chunks);
    assert(k * (s * g) == q * g + t * cap) by (nonlinear_arith)
        requires
            k * s == chunks * t + q,
            cap == chunks * g;
    lemma_hybrid_position::<G>(hash, search_tag, bucket_mask, k as nat);
    let pos = probe_at::<HybridProbeSequence<G>>(hash, search_tag, bucket_mask, k as nat).0 as int;
    assert(pos == (st + k * (s * g)) % cap);
    lemma_add_mod_noop_right(o, st + k * (s * g), cap);
    assert(o + (st + k * (s * g)) == (st + d) + t * cap) by (nonlinear_arith)
        requires
            k * (s * g) == q * g + t * cap,
            d == g * q + o;
    lemma_mod_shift(st + d, t, cap);
    lemma_add_mod_noop_right(st, slot - st, cap);
    lemma_small_mod(slot as nat, cap as nat);
    assert((pos + o) % cap == (o + pos) % cap);
    assert(probe_slot_at::<HybridProbeSequence<G>>(hash, search_tag, bucket_mask, k as nat, o) == slot);
}

/// After `k` steps, a SwissTable probe starts the `k`th triangular number
/// of groups past its first slot, around the table, with a stride of `k`
/// groups.
proof fn lemma_swiss_position<const G: usize>(hash: u64, search_tag: u8, bucket_mask: usize, k: nat)
    requires
        power_of_two(bucket_mask + 1),
        bucket_mask < usize::MAX,
    ensures
        probe_at::<SwissTableProbeSeq<G>>(hash, search_tag, bucket_mask, k).0 as int
            == ((hash as usize) as int % (bucket_mask + 1) + G as int * triangle(k)) % (bucket_mask + 1),
        probe_at::<SwissTableProbeSeq<G>>(hash, search_tag, bucket_mask, k).1 as int % (bucket_mask + 1)
            == (k * G as int) % (bucket_mask + 1),
    decreases k,
{
    let cap = bucket_mask + 1;
    let st = (hash as usize) as int % cap;
    let g = G as int;
    lemma_mod_bound((hash as usize) as int, cap);
    lemma_mask_is_mod(hash as usize, cap as usize);
    if k == 0 {
        lemma_small_mod(st as nat, cap as nat);
        assert(0 * g == 0) by (nonlinear_arith);
        assert(triangle(0) == 0);
        assert(g * triangle(0) == 0) by (nonlinear_arith)
            requires triangle(0) == 0;
        lemma_small_mod(0, cap as nat);
    } else {
        lemma_swiss_position::<G>(hash, search_tag, bucket_mask, (k - 1) as nat);
        let prev = probe_at::<SwissTableProbeSeq<G>>(hash, search_tag, bucket_mask, (k - 1) as nat);
        let stride = vstd::wrapping::usize_specs::wrapping_add(prev.1, G);
        lemma_wrapping_add_mod(prev.1, G, cap);
        lemma_add_mod_noop(prev.1 as int, g, cap);
        lemma_add_mod_noop((k - 1) * g, g, cap);
        assert((k - 1) * g + g == k * g) by (nonlinear_arith);
        lemma_masked_step(prev.0, stride, bucket_mask);
        let x = st + g * triangle((k - 1) as nat);
        lemma_add_mod_noop(prev.0 as int, stride as int, cap);
        lemma_add_mod_noop(x, k * g, cap);
        assert((prev.0 as int % cap) == x % cap) by {
            lemma_mod_bound(x, cap);
            lemma_small_mod(prev.0 as nat, cap as nat);
        }
        assert(x + k * g == st + g * triangle(k)) by (nonlinear_arith)
            requires x == st + g * triangle((k - 1) as nat), triangle(k) == triangle((k - 1) as nat) + k;
        let next = probe_at::<SwissTableProbeSeq<G>>(hash, search_tag, bucket_mask, k);
        assert(next.0 == (vstd::wrapping::usize_specs::wrapping_add(prev.0, stride) & bucket_mask));
        assert(stride as int % cap == (k * g) % cap);
        assert(next.0 as int == (prev.0 as int + stride as int) % cap);
        assert(next.0 as int == ((prev.0 as int % cap) + (stride as int % cap)) % cap);
        assert(next.0 as int == ((x % cap) + ((k * g) % cap)) % cap);
    }
}

/// The groups of a SwissTable probe's first `slots / G` steps cover the
/// table.
pub(crate) proof fn lemma_swiss_covers<const G: usize>(hash: u64, search_tag: u8, bucket_mask: usize, slot: int)
    requires
        power_of_two(bucket_mask + 1),
        bucket_mask < usize::MAX,
        power_of_two(G as int),
        G <= bucket_mask + 1,
        0 <= slot <= bucket_mask,
    ensures
        exists|j: nat, p: int| j < (bucket_mask + 1) / (G as int) && 0 <= p < G
            && #[trigger] probe_slot_at::<SwissTableProbeSeq<G>>(hash, search_tag, bucket_mask, j, p) == slot,
{
    let cap = bucket_mask + 1;
    let g = G as int;
    lemma_pow2_div(cap, g);
    let chunks = cap / g;
    let st = (hash as usize) as int % cap;
    lemma_mod_bound((hash as usize) as int, cap);
    let d = (slot - st) % cap;
    lemma_mod_bound(slot - st, cap);
    let q = d / g;
    let o = d % g;
    lemma_fundamental_div_mod(d, g);
    lemma_mod_bound(d, g);
    assert(0 <= q < chunks) by (nonlinear_arith)
        requires
            d == g * q + o,
            0 <= o < g,
            0 <= d < cap,
            cap == chunks * g,
            g > 0;
    lemma_triangle_covers(chunks, q);
    let k = choose|k: nat| k < chunks && #[trigger] ((triangle(k) as int) % chunks) == q;
    let tk = triangle(k) as int;
    let t = tk / chunks;
    lemma_fundamental_div_mod(tk, chunks);
    assert(g * tk == q * g + t * cap) by (nonlinear_arith)
        requires
            tk == chunks * t + q,
            cap == chunks * g;
    lemma_swiss_position::<G>(hash, search_tag, bucket_mask, k);
    let pos = probe_at::<SwissTableProbeSeq<G>>(hash, search_tag, bucket_mask, k).0 as int;
    lemma_add_mod_noop_right(o, st + g * tk, cap);
    assert(o + (st + g * tk) == (st + d) + t * cap) by (nonlinear_arith)
        requires
            g * tk == q * g + t * cap,
            d == g * q + o;
    lemma_mod_shift(st + d, t, cap);
    lemma_add_mod_noop_right(st, slot - st, cap);
    lemma_small_mod(slot as nat, cap as nat);
    assert((pos + o) % cap == (o + pos) % cap);
    assert(probe_slot_at::<SwissTableProbeSeq<G>>(hash, search_tag, bucket_mask, k, o) == slot);
}

} // verus!
