//! Writing the merged entries into the destination table without locks.
//!
//! Every worker replays, on its own occupancy vector, the inserts of all the
//! workers in one agreed order: it pretends to write the counted entries of
//! the partitions it does not own, and writes its own entries for real. Each
//! insert takes the first free slot of the SwissTable probe of its hash, so
//! every worker agrees on which slot each entry takes, and no two workers
//! write the same slot.
//!
//! The destination table is modelled here by its slots: `Some((hash,
//! value))` where an entry was written, `None` where none was.

use vstd::prelude::*;
use vstd::set_lib::{set_int_range, lemma_int_range, lemma_map_size, lemma_subset_equality};
use vstd::arithmetic::div_mod::{lemma_add_mod_noop, lemma_mod_bound, lemma_small_mod, lemma_fundamental_div_mod,
    lemma_mod_twice};
use vstd::arithmetic::power2::{pow2, lemma_pow2_unfold, lemma_pow2_pos};
use crate::power_of_two::{power_of_two, lemma_mask_is_mod, lemma_odd_inverse, lemma_mod_shift, lemma_pow2_div};
use crate::concurrent_build::{LocalTablePartitioner, swiss_probe, swiss_probe_slot, claimed_after, probe_visit_bound,
    claim_slots, pretend_to_write_hashes_to_map};
use crate::local_tables::{LocalEntry, LocalTable, local_table_entries, local_table_iter, enumerates, entry_keys};
use crate::utils::{get_owned_range, owned_start, owned_end};

verus! {

/// The `k`th triangular number: `0 + 1 + ... + k`.
pub open spec fn triangle(k: nat) -> nat
    decreases k,
{
    if k == 0 {
        0
    } else {
        triangle((k - 1) as nat) + k
    }
}

proof fn lemma_triangle_closed(k: nat)
    ensures
        2 * triangle(k) == k * (k + 1),
    decreases k,
{
    if k == 0 {
        assert(k * (k + 1) == 0) by (nonlinear_arith)
            requires k == 0;
    } else {
        let j = (k - 1) as nat;
        lemma_triangle_closed(j);
        assert(2 * triangle(k) == k * (k + 1)) by (nonlinear_arith)
            requires
                2 * triangle(j) == j * (j + 1),
                triangle(k) == triangle(j) + k,
                j + 1 == k;
    }
}

/// After `k` steps the SwissTable probe stands `8 * (triangle(k) as int)` slots past
/// its start, modulo the number of slots.
proof fn lemma_swiss_probe_closed(start: usize, mask: usize, k: nat)
    requires
        power_of_two(mask + 1),
        mask <= usize::MAX / 4,
        k <= mask / 8 + 1,
    ensures
        swiss_probe(start, mask, k).0 == (start + 8 * (triangle(k) as int)) % (mask + 1),
        swiss_probe(start, mask, k).1 == 8 * k,
    decreases k,
{
    let cap = (mask + 1) as usize;
    let n = cap as int;
    lemma_mask_is_mod(start, cap);
    if k > 0 {
        lemma_swiss_probe_closed(start, mask, (k - 1) as nat);
        let previous = swiss_probe(start, mask, (k - 1) as nat);
        let before = start + 8 * (triangle((k - 1) as nat) as int);
        let step = 8 * (k as int);
        let x = previous.0 + previous.1 + 8;
        lemma_mod_bound(before, n);
        assert(0 <= x <= usize::MAX) by (nonlinear_arith)
            requires
                x == previous.0 + previous.1 + 8,
                0 <= previous.0 < mask + 1,
                previous.1 == 8 * (k - 1),
                k <= mask / 8 + 1,
                mask <= usize::MAX / 4;
        assert(x == previous.0 + step);
        lemma_mask_is_mod(x as usize, cap);
        assert((previous.0 + step) % n == (before + step) % n) by {
            lemma_add_mod_noop(previous.0, step, n);
            lemma_mod_twice(before, n);
            lemma_add_mod_noop(before, step, n);
        }
        assert(before + step == start + 8 * (triangle(k) as int));
    }
}

/// Triangular numbers below a power of two `c` leave distinct remainders
/// by `c`.
proof fn lemma_triangle_distinct(c: int, a: nat, b: nat)
    requires
        power_of_two(c),
        a < b < c,
    ensures
        (triangle(a) as int) % c != (triangle(b) as int) % c,
{
    let e = choose|e: nat| #[trigger] pow2(e) == c;
    lemma_pow2_unfold(e + 1);
    lemma_pow2_pos(e);
    let c2 = 2 * c;
    let ta = triangle(a) as int;
    let tb = triangle(b) as int;
    lemma_triangle_closed(a);
    lemma_triangle_closed(b);
    let x = b - a;
    let y: int = a as int + b as int + 1;
    assert(2 * (tb - ta) == x * y) by (nonlinear_arith)
        requires
            2 * ta == a * (a + 1),
            2 * tb == b * (b + 1),
            x == b - a,
            y == a + b + 1;
    if ta % c == tb % c {
        lemma_fundamental_div_mod(ta, c);
        lemma_fundamental_div_mod(tb, c);
        let t = tb / c - ta / c;
        assert(tb - ta == c * t) by (nonlinear_arith)
            requires
                ta == c * (ta / c) + ta % c,
                tb == c * (tb / c) + tb % c,
                ta % c == tb % c,
                t == tb / c - ta / c;
        assert(x * y == c2 * t) by (nonlinear_arith)
            requires
                2 * (tb - ta) == x * y,
                tb - ta == c * t,
                c2 == 2 * c;
        // One of `x` and `y` is odd, since they add up to an odd number.
        if x % 2 == 1 {
            let (u, m) = lemma_odd_inverse(x, e + 1);
            assert(y == c2 * (t * u - y * m)) by (nonlinear_arith)
                requires
                    x * y == c2 * t,
                    x * u == 1 + m * c2;
            assert(false) by (nonlinear_arith)
                requires
                    y == c2 * (t * u - y * m),
                    0 < y < c2;
        } else {
            assert(y % 2 == 1);
            let (u, m) = lemma_odd_inverse(y, e + 1);
            assert(x == c2 * (t * u - x * m)) by (nonlinear_arith)
                requires
                    x * y == c2 * t,
                    y * u == 1 + m * c2;
            assert(false) by (nonlinear_arith)
                requires
                    x == c2 * (t * u - x * m),
                    0 < x < c2;
        }
    }
}

/// Every remainder by a power of two `c` is the remainder of a triangular
/// number below `c`.
pub(crate) proof fn lemma_triangle_covers(c: int, q: int)
    requires
        power_of_two(c),
        0 <= q < c,
    ensures
        exists|k: nat| k < c && #[trigger] ((triangle(k) as int) % c) == q,
{
    let e = choose|e: nat| #[trigger] pow2(e) == c;
    lemma_pow2_pos(e);
    let range = set_int_range(0, c);
    let f = |k: int| (triangle(k as nat) as int) % c;
    lemma_int_range(0, c);
    assert(vstd::relations::injective_on(f, range)) by {
        assert forall|a: int, b: int| range.contains(a) && range.contains(b) && #[trigger] f(a) == #[trigger] f(b)
            implies a == b by {
            if a < b {
                lemma_triangle_distinct(c, a as nat, b as nat);
            } else if b < a {
                lemma_triangle_distinct(c, b as nat, a as nat);
            }
        }
    }
    let image = range.map(f);
    lemma_map_size(range, image, f);
    assert(image.subset_of(range)) by {
        assert forall|v: int| image.contains(v) implies range.contains(v) by {
            let k = choose|k: int| range.contains(k) && f(k) == v;
            lemma_mod_bound(triangle(k as nat) as int, c);
        }
    }
    lemma_subset_equality(image, range);
    assert(image.contains(q));
    let k = choose|k: int| range.contains(k) && f(k) == q;
    assert((triangle(k as nat) as int) % c == q);
}

/// The SwissTable probe of a table whose slot count is a power of two
/// visits every slot before it reaches its bound.
pub proof fn lemma_swiss_probe_covers_table(start: usize, mask: usize, slot: int)
    requires
        power_of_two(mask + 1),
        mask <= usize::MAX / 4,
        0 <= slot <= mask,
    ensures
        exists|n: nat| n < probe_visit_bound(mask) && #[trigger] swiss_probe_slot(start, mask, n) == slot,
{
    let cap = mask + 1;
    let d = (slot - start) % cap;
    lemma_mod_bound(slot - start, cap);
    let o = d % 8;
    let q = d / 8;
    lemma_fundamental_div_mod(d, 8);
    let mut k: nat = 0;
    if cap >= 8 {
        assert(power_of_two(8)) by {
            vstd::arithmetic::power2::lemma2_to64();
            assert(pow2(3) == 8);
        }
        lemma_pow2_div(cap, 8);
        let c = cap / 8;
        assert(0 <= q < c) by (nonlinear_arith)
            requires d == 8 * q + o, 0 <= o < 8, 0 <= d < cap, cap == c * 8;
        lemma_triangle_covers(c, q);
        k = choose|k: nat| k < c && #[trigger] ((triangle(k) as int) % c) == q;
        // `8 * (triangle(k) as int)` is `8 * q` plus a multiple of the slot count.
        lemma_fundamental_div_mod(triangle(k) as int, c);
        let t = triangle(k) as int / c;
        assert(8 * (triangle(k) as int) == 8 * q + t * cap) by (nonlinear_arith)
            requires triangle(k) == c * t + q, cap == c * 8;
        assert(k <= mask / 8 + 1) by (nonlinear_arith)
            requires k < c, cap == c * 8, cap == mask + 1;
        lemma_swiss_probe_closed(start, mask, k);
        let pos = swiss_probe(start, mask, k).0;
        let n = 8 * k + o;
        assert(n / 8 == k && n % 8 == o) by (nonlinear_arith)
            requires n == 8 * k + o, 0 <= o < 8;
        let x = pos + o;
        lemma_mod_bound(start + 8 * (triangle(k) as int), cap);
        lemma_mask_is_mod(x as usize, cap as usize);
        assert(swiss_probe_slot(start, mask, n as nat) == x % cap);
        lemma_add_mod_noop(start + 8 * (triangle(k) as int), o, cap);
        lemma_mod_twice(start + 8 * (triangle(k) as int), cap);
        lemma_small_mod(o as nat, cap as nat);
        assert(x % cap == (start + 8 * (triangle(k) as int) + o) % cap) by {
            lemma_add_mod_noop(pos, o, cap);
            lemma_add_mod_noop(start + 8 * (triangle(k) as int), o, cap);
        }
        assert(start + 8 * (triangle(k) as int) + o == (start + d) + t * cap);
        lemma_mod_shift(start + d, t, cap);
        assert((start + d) % cap == slot % cap) by {
            lemma_add_mod_noop(start as int, slot - start, cap);
            lemma_mod_twice(slot - start, cap);
            lemma_add_mod_noop(start as int, d, cap);
        }
        lemma_small_mod(slot as nat, cap as nat);
        assert(n < probe_visit_bound(mask)) by (nonlinear_arith)
            requires n == 8 * k + o, o < 8, k < c, cap == c * 8, cap == mask + 1,
                probe_visit_bound(mask) == 8 * (mask / 8 + 2);
        assert(swiss_probe_slot(start, mask, n as nat) == slot);
    } else {
        // A single step of eight slots already wraps around the whole table.
        lemma_swiss_probe_closed(start, mask, 0);
        let n = d;
        assert(n < 8);
        assert(n / 8 == 0 && n % 8 == n);
        let pos = swiss_probe(start, mask, 0).0;
        let x = pos + n;
        lemma_mod_bound(start as int, cap);
        lemma_mask_is_mod(x as usize, cap as usize);
        assert(x % cap == slot) by {
            lemma_add_mod_noop(start as int, n, cap);
            lemma_mod_twice(start as int, cap);
            lemma_add_mod_noop(start as int, slot - start, cap);
            lemma_mod_twice(slot - start, cap);
            lemma_small_mod(slot as nat, cap as nat);
            lemma_add_mod_noop(pos, n, cap);
        }
        assert(swiss_probe_slot(start, mask, n as nat) == slot);
    }
}

/// The number of free slots among the first `n` of `occupied`.
pub open spec fn free_below(occupied: Seq<bool>, n: int) -> nat
    decreases n,
{
    if n <= 0 {
        0
    } else {
        free_below(occupied, n - 1) + if occupied[n - 1] { 0nat } else { 1nat }
    }
}

proof fn lemma_free_update(occupied: Seq<bool>, s: int, n: int)
    requires
        0 <= s < occupied.len(),
        !occupied[s],
        0 <= n <= occupied.len(),
    ensures
        free_below(occupied.update(s, true), n) + (if s < n { 1int } else { 0int }) == free_below(occupied, n),
    decreases n,
{
    if n > 0 {
        lemma_free_update(occupied, s, n - 1);
    }
}

proof fn lemma_all_occupied(occupied: Seq<bool>, n: int)
    requires
        0 <= n <= occupied.len(),
        forall|i: int| 0 <= i < n ==> occupied[i],
    ensures
        free_below(occupied, n) == 0,
    decreases n,
{
    if n > 0 {
        lemma_all_occupied(occupied, n - 1);
    }
}

proof fn lemma_none_occupied(occupied: Seq<bool>, n: int)
    requires
        0 <= n <= occupied.len(),
        forall|i: int| 0 <= i < n ==> !occupied[i],
    ensures
        free_below(occupied, n) == n,
    decreases n,
{
    if n > 0 {
        lemma_none_occupied(occupied, n - 1);
    }
}

/// What a run of claims keeps: the length of the occupancy, the slots
/// still to claim plus those claimed, the free slots plus those claimed,
/// and, while slots are still to claim, every visited slot occupied.
proof fn lemma_claim_progress(occupied: Seq<bool>, count: nat, start: usize, mask: usize, n: nat)
    requires
        occupied.len() > mask,
    ensures
        ({
            let (o, remaining, claimed) = claimed_after(occupied, count, start, mask, n);
            &&& o.len() == occupied.len()
            &&& claimed.len() + remaining == count
            &&& forall|j: int| 0 <= j < claimed.len() ==> #[trigger] claimed[j] <= mask
            &&& free_below(o, mask + 1) + (count - remaining) == free_below(occupied, mask + 1)
            &&& remaining > 0 ==> forall|m: nat| m < n ==> o[#[trigger] swiss_probe_slot(start, mask, m)]
            &&& remaining == count ==> o == occupied
        }),
    decreases n,
{
    if n > 0 {
        let m = (n - 1) as nat;
        lemma_claim_progress(occupied, count, start, mask, m);
        let (o, remaining, claimed) = claimed_after(occupied, count, start, mask, m);
        let slot = swiss_probe_slot(start, mask, m);
        crate::bit_facts::lemma_usize_mask((swiss_probe(start, mask, m / 8).0 + m % 8) as usize, mask, 0);
        assert(0 <= slot <= mask);
        if !(remaining == 0 || o[slot]) {
            lemma_free_update(o, slot, mask + 1);
            let o2 = o.update(slot, true);
            assert forall|j: nat| j < n implies o2[#[trigger] swiss_probe_slot(start, mask, j)] by {
                crate::bit_facts::lemma_usize_mask((swiss_probe(start, mask, j / 8).0 + j % 8) as usize, mask, 0);
                if j < m {
                    assert(o[swiss_probe_slot(start, mask, j)]);
                }
            }
        }
    }
}

/// The SwissTable probe of a table whose slot count is a power of two
/// claims as many slots as it is asked to whenever that many are free.
pub proof fn lemma_claims_complete(occupied: Seq<bool>, count: nat, start: usize, mask: usize)
    requires
        power_of_two(mask + 1),
        mask <= usize::MAX / 4,
        occupied.len() > mask,
        count <= free_below(occupied, mask + 1),
    ensures
        ({
            let (o, remaining, claimed) = claimed_after(occupied, count, start, mask, probe_visit_bound(mask));
            &&& remaining == 0
            &&& o.len() == occupied.len()
            &&& claimed.len() == count
            &&& forall|j: int| 0 <= j < claimed.len() ==> #[trigger] claimed[j] <= mask
            &&& free_below(o, mask + 1) + count == free_below(occupied, mask + 1)
            &&& count == 0 ==> o == occupied
        }),
{
    let bound = probe_visit_bound(mask);
    lemma_claim_progress(occupied, count, start, mask, bound);
    let (o, remaining, claimed) = claimed_after(occupied, count, start, mask, bound);
    if remaining > 0 {
        assert forall|i: int| 0 <= i < mask + 1 implies o[i] by {
            lemma_swiss_probe_covers_table(start, mask, i);
            let m = choose|m: nat| m < bound && #[trigger] swiss_probe_slot(start, mask, m) == i;
            assert(o[swiss_probe_slot(start, mask, m)]);
        }
        lemma_all_occupied(o, mask + 1);
    }
}

/// Claiming one slot: the slot claimed was free, and it is the one slot
/// that turns occupied.
proof fn lemma_claim_one(occupied: Seq<bool>, start: usize, mask: usize, n: nat)
    ensures
        ({
            let (o, remaining, claimed) = claimed_after(occupied, 1, start, mask, n);
            &&& remaining == 0 ==> claimed.len() == 1 && !occupied[claimed[0] as int]
                && o == occupied.update(claimed[0] as int, true)
            &&& remaining == 1 ==> o == occupied && claimed.len() == 0
            &&& remaining <= 1
        }),
    decreases n,
{
    if n > 0 {
        lemma_claim_one(occupied, start, mask, (n - 1) as nat);
    }
}

/// Writing entries one after another, each into the first free slot of the
/// probe of its hash, takes a distinct free slot for each of them, as long
/// as the table has as many free slots as entries: afterwards each slot
/// taken holds its entry's hash and insertion index.
pub proof fn lemma_writes_land_in_own_slots(
    before: Seq<Option<(u64, usize)>>,
    occupied: Seq<bool>,
    items: Seq<LocalEntry>,
    mask: usize,
)
    requires
        power_of_two(mask + 1),
        mask <= usize::MAX / 4,
        occupied.len() > mask,
        before.len() > mask,
        items.len() <= free_below(occupied, mask + 1),
    ensures
        ({
            let (o, slots) = written_slots(occupied, items, mask);
            let after = with_writes(before, items, slots);
            &&& slots.len() == items.len()
            &&& o.len() == occupied.len()
            &&& free_below(o, mask + 1) + items.len() == free_below(occupied, mask + 1)
            &&& forall|i: int| 0 <= i < occupied.len() && occupied[i] ==> o[i]
            &&& forall|k: int| 0 <= k < slots.len() ==> #[trigger] slots[k] <= mask && !occupied[slots[k] as int] && o[slots[k] as int]
            &&& forall|k1: int, k2: int| 0 <= k1 < k2 < slots.len() ==> #[trigger] slots[k1] != #[trigger] slots[k2]
            &&& after.len() == before.len()
            &&& forall|k: int| 0 <= k < slots.len() ==> after[#[trigger] slots[k] as int] == Some((items[k].hash, items[k].global_index))
        }),
    decreases items.len(),
{
    if items.len() > 0 {
        let n = items.len() - 1;
        lemma_writes_land_in_own_slots(before, occupied, items.drop_last(), mask);
        let (o1, s1) = written_slots(occupied, items.drop_last(), mask);
        let bound = probe_visit_bound(mask);
        let start = items.last().hash as usize;
        lemma_claims_complete(o1, 1, start, mask);
        lemma_claim_one(o1, start, mask, bound);
        let claim = claimed_after(o1, 1, start, mask, bound);
        let c = claim.2[0];
        let (o, slots) = written_slots(occupied, items, mask);
        assert(o == o1.update(c as int, true));
        assert(slots == s1.push(c));
        assert(slots.drop_last() =~= s1);
        lemma_free_update(o1, c as int, mask + 1);
        let after1 = with_writes(before, items.drop_last(), s1);
        let after = with_writes(before, items, slots);
        assert(after == after1.update(c as int, Some((items.last().hash, items.last().global_index))));
        assert forall|k: int| 0 <= k < slots.len() implies #[trigger] slots[k] <= mask && !occupied[slots[k] as int]
            && o[slots[k] as int] by {
            if k < n {
                assert(slots[k] == s1[k]);
            }
        }
        assert forall|k1: int, k2: int| 0 <= k1 < k2 < slots.len() implies #[trigger] slots[k1] != #[trigger] slots[k2] by {
            if k2 < n {
                assert(slots[k1] == s1[k1] && slots[k2] == s1[k2]);
            } else {
                assert(slots[k1] == s1[k1]);
                assert(o1[s1[k1] as int]);
            }
        }
        assert forall|k: int| 0 <= k < slots.len() implies after[#[trigger] slots[k] as int]
            == Some((items[k].hash, items[k].global_index)) by {
            if k < n {
                assert(slots[k] == s1[k]);
                assert(items.drop_last()[k] == items[k]);
                assert(o1[s1[k] as int]);
                assert(s1[k] != c);
            }
        }
    }
}

/// Writes `(hash, value)` into the first free slot of the SwissTable probe
/// of `hash` in a table with mask `table_bucket_mask`, and marks that slot
/// occupied.
pub fn actually_write_hashes_to_map(
    table_bucket_mask: usize,
    hash: u64,
    value: usize,
    occupied: &mut Vec<bool>,
    destination: &mut Vec<Option<(u64, usize)>>,
)
    requires
        table_bucket_mask <= usize::MAX / 4,
        old(occupied)@.len() > table_bucket_mask,
        old(destination)@.len() > table_bucket_mask,
        claimed_after(old(occupied)@, 1, hash as usize, table_bucket_mask, probe_visit_bound(table_bucket_mask)).1 == 0,
    ensures
        ({
            let claim = claimed_after(old(occupied)@, 1, hash as usize, table_bucket_mask, probe_visit_bound(table_bucket_mask));
            &&& final(occupied)@ == claim.0
            &&& claim.2.len() == 1
            &&& claim.2[0] <= table_bucket_mask
            &&& final(destination)@ == old(destination)@.update(claim.2[0] as int, Some((hash, value)))
        }),
{
    proof {
        lemma_claim_progress(old(occupied)@, 1, hash as usize, table_bucket_mask, probe_visit_bound(table_bucket_mask));
    }
    let slots = claim_slots(hash as usize, table_bucket_mask, 1, occupied);
    let index = slots[0];
    destination.set(index, Some((hash, value)));
}

/// An occupancy of `n` slots, none of them occupied.
pub open spec fn no_occupied(n: nat) -> Seq<bool> {
    Seq::new(n, |i: int| false)
}

/// The sum of `counts[from..to]`.
pub open spec fn counts_sum(counts: Seq<usize>, from: int, to: int) -> int
    decreases to - from,
{
    if to <= from {
        0
    } else {
        counts_sum(counts, from, to - 1) + counts[to - 1]
    }
}

/// The number of entries in the first `n` of `tables`.
pub open spec fn entries_count(tables: Seq<LocalTable>, n: int) -> int
    decreases n,
{
    if n <= 0 {
        0
    } else {
        entries_count(tables, n - 1) + local_table_entries(tables[n - 1]).len()
    }
}

/// The counters that a worker owns: those of the partitions it owns, each
/// partition covering `counter_count / local_bucket_count` counters.
pub open spec fn owned_counters(parallelism: int, thread_index: int, local_bucket_count: int, counter_count: int) -> (int, int) {
    let scale = counter_count / local_bucket_count;
    (owned_start(local_bucket_count, parallelism, thread_index) * scale,
        owned_end(local_bucket_count, parallelism, thread_index) * scale)
}

/// The occupancy after pretending to write, in turn, the counted entries of
/// partitions `from..to` of a partitioner of `partitions` partitions.
pub open spec fn pretended(partitions: int, counts: Seq<usize>, mask: usize, occupied: Seq<bool>, from: int, to: int) -> Seq<bool>
    decreases to - from,
{
    if to <= from {
        occupied
    } else {
        claimed_after(pretended(partitions, counts, mask, occupied, from, to - 1), counts[to - 1] as nat,
            LocalTablePartitioner::of_partitions(partitions).masked_hash_of((to - 1) as usize), mask,
            probe_visit_bound(mask)).0
    }
}

/// The occupancy and the slots taken after writing `items` in turn, each
/// into the first free slot of the probe of its hash.
pub open spec fn written_slots(occupied: Seq<bool>, items: Seq<LocalEntry>, mask: usize) -> (Seq<bool>, Seq<usize>)
    decreases items.len(),
{
    if items.len() == 0 {
        (occupied, Seq::empty())
    } else {
        let (o, slots) = written_slots(occupied, items.drop_last(), mask);
        let claim = claimed_after(o, 1, items.last().hash as usize, mask, probe_visit_bound(mask));
        (claim.0, slots.push(claim.2[0]))
    }
}

/// `destination` with each of `items` written into the slot of the same
/// index in `slots`.
pub open spec fn with_writes(destination: Seq<Option<(u64, usize)>>, items: Seq<LocalEntry>, slots: Seq<usize>) -> Seq<Option<(u64, usize)>>
    decreases items.len(),
{
    if items.len() == 0 {
        destination
    } else {
        with_writes(destination, items.drop_last(), slots.drop_last()).update(
            slots.last() as int, Some((items.last().hash, items.last().global_index)))
    }
}

/// `after` is `before` with the entries of `tables` written in the order
/// `orders` lists them, table by table, starting from the occupancy
/// `occupied`.
pub open spec fn writes_in_order(
    before: Seq<Option<(u64, usize)>>,
    after: Seq<Option<(u64, usize)>>,
    orders: Seq<Seq<LocalEntry>>,
    tables: Seq<LocalTable>,
    occupied: Seq<bool>,
    mask: usize,
) -> bool {
    &&& orders.len() == tables.len()
    &&& forall|i: int| 0 <= i < orders.len() ==> enumerates(#[trigger] orders[i], local_table_entries(tables[i]))
    &&& after == with_writes(before, orders.flatten(), written_slots(occupied, orders.flatten(), mask).1)
}

proof fn lemma_counts_sum_grows(counts: Seq<usize>, from: int, a: int, b: int)
    requires
        from <= a <= b,
    ensures
        counts_sum(counts, from, a) <= counts_sum(counts, from, b),
    decreases b - a,
{
    if a < b {
        lemma_counts_sum_grows(counts, from, a, b - 1);
    }
}

proof fn lemma_entries_count_grows(tables: Seq<LocalTable>, a: int, b: int)
    requires
        0 <= a <= b,
    ensures
        entries_count(tables, a) <= entries_count(tables, b),
    decreases b - a,
{
    if a < b {
        lemma_entries_count_grows(tables, a, b - 1);
    }
}

/// A worker's share of `total` ends inside `0..total`.
proof fn lemma_owned_end_bounded(total: int, count: int, index: int)
    requires
        total >= 0,
        count > 0,
        0 <= index < count,
    ensures
        0 <= owned_start(total, count, index) <= owned_end(total, count, index) <= total,
{
    let q = total / count;
    let r = total % count;
    vstd::arithmetic::div_mod::lemma_fundamental_div_mod(total, count);
    lemma_mod_bound(total, count);
    assert(0 <= q) by (nonlinear_arith)
        requires total >= 0, count > 0, q == total / count;
    assert((index + 1) * q <= count * q) by (nonlinear_arith)
        requires index + 1 <= count, 0 <= q;
    assert(index * q + q == (index + 1) * q) by (nonlinear_arith);
    assert(0 <= index * q) by (nonlinear_arith)
        requires index >= 0, q >= 0;
}

/// Writing one more entry appends its claim to the run of writes.
proof fn lemma_write_step(
    occupied: Seq<bool>,
    destination: Seq<Option<(u64, usize)>>,
    items: Seq<LocalEntry>,
    item: LocalEntry,
    mask: usize,
)
    ensures
        ({
            let (o, slots) = written_slots(occupied, items, mask);
            let claim = claimed_after(o, 1, item.hash as usize, mask, probe_visit_bound(mask));
            &&& written_slots(occupied, items.push(item), mask) == (claim.0, slots.push(claim.2[0]))
            &&& with_writes(destination, items.push(item), slots.push(claim.2[0]))
                == with_writes(destination, items, slots).update(claim.2[0] as int, Some((item.hash, item.global_index)))
        }),
{
    assert(items.push(item).drop_last() =~= items);
    let (o, slots) = written_slots(occupied, items, mask);
    let claim = claimed_after(o, 1, item.hash as usize, mask, probe_visit_bound(mask));
    assert(slots.push(claim.2[0]).drop_last() =~= slots);
}

/// An enumeration of a table lists as many entries as the table holds.
proof fn lemma_enumeration_len(entries: Seq<LocalEntry>, table: Map<u64, LocalEntry>)
    requires
        enumerates(entries, table),
    ensures
        entries.len() == table.len(),
{
    let keys = entry_keys(entries);
    keys.unique_seq_to_set();
    assert(keys.len() == entries.len());
}

/// Every entry of every table is in some slot of `destination`, with its
/// hash and its insertion index.
pub open spec fn holds_every_entry(destination: Seq<Option<(u64, usize)>>, tables: Seq<LocalTable>) -> bool {
    forall|i: int, th: u64| 0 <= i < tables.len() && #[trigger] local_table_entries(tables[i]).contains_key(th)
        ==> exists|s: int| 0 <= s < destination.len() && destination[s] == Some((
            local_table_entries(tables[i])[th].hash, local_table_entries(tables[i])[th].global_index))
}

/// An item of one of the sequences is an item of their concatenation.
proof fn lemma_in_flatten(orders: Seq<Seq<LocalEntry>>, i: int, k: int)
    requires
        0 <= i < orders.len(),
        0 <= k < orders[i].len(),
    ensures
        exists|m: int| 0 <= m < orders.flatten().len() && #[trigger] orders.flatten()[m] == orders[i][k],
    decreases orders.len(),
{
    let n = orders.len() - 1;
    let rest = orders.drop_last();
    assert(orders =~= rest.push(orders[n]));
    lemma_flatten_push(rest, orders[n]);
    if i < n {
        lemma_in_flatten(rest, i, k);
        let m = choose|m: int| 0 <= m < rest.flatten().len() && #[trigger] rest.flatten()[m] == rest[i][k];
        assert(orders.flatten()[m] == rest.flatten()[m]);
    } else {
        let m = rest.flatten().len() + k;
        assert(orders.flatten()[m] == orders[n][k]);
    }
}

/// Appending one sequence to a sequence of sequences appends it to their
/// concatenation.
proof fn lemma_flatten_push(orders: Seq<Seq<LocalEntry>>, last: Seq<LocalEntry>)
    ensures
        orders.push(last).flatten() == orders.flatten() + last,
{
    vstd::seq_lib::lemma_flatten_concat(orders, seq![last]);
    assert(orders.push(last) =~= orders + seq![last]);
    seq![last].lemma_flatten_one_element();
}

/// Writes the entries of the partitions that worker `thread_index` of
/// `parallelism` owns into `destination`, whose length is a power of two.
///
/// The worker first pretends to write the counted entries of the partitions
/// below its own, in order, then writes the entries of its merged tables,
/// table by table, and then pretends to write the counted entries of the
/// partitions above its own. Each write, pretended or real, takes the first
/// free slot of the SwissTable probe of its hash. Only the real writes
/// touch `destination`.
pub fn write_to_destination_table(
    parallelism: usize,
    thread_index: usize,
    local_bucket_count: usize,
    shared_bucket_counts: &Vec<usize>,
    local_merged_buckets: &Vec<LocalTable>,
    destination: &mut Vec<Option<(u64, usize)>>,
)
    requires
        thread_index < parallelism,
        power_of_two(local_bucket_count as int),
        power_of_two(shared_bucket_counts@.len() as int),
        local_bucket_count < shared_bucket_counts@.len(),
        ((shared_bucket_counts@.len() - 1) as usize) >> ((usize::BITS - 7) as usize) == 0,
        power_of_two(old(destination)@.len() as int),
        old(destination)@.len() - 1 <= usize::MAX / 4,
        ({
            let (low, high) = owned_counters(parallelism as int, thread_index as int, local_bucket_count as int,
                shared_bucket_counts@.len() as int);
            counts_sum(shared_bucket_counts@, 0, low) + entries_count(local_merged_buckets@, local_merged_buckets@.len() as int)
                + counts_sum(shared_bucket_counts@, high, shared_bucket_counts@.len() as int) <= old(destination)@.len()
        }),
    ensures
        final(destination)@.len() == old(destination)@.len(),
        exists|orders: Seq<Seq<LocalEntry>>| #[trigger] writes_in_order(old(destination)@, final(destination)@, orders,
            local_merged_buckets@,
            pretended(shared_bucket_counts@.len() as int, shared_bucket_counts@, (old(destination)@.len() - 1) as usize,
                no_occupied(old(destination)@.len()), 0,
                owned_counters(parallelism as int, thread_index as int, local_bucket_count as int,
                    shared_bucket_counts@.len() as int).0),
            (old(destination)@.len() - 1) as usize),
        holds_every_entry(final(destination)@, local_merged_buckets@),
{
    let ghost counts = shared_bucket_counts@;
    let ghost tables = local_merged_buckets@;
    let ghost dest0 = destination@;
    let capacity = destination.len();
    let ghost cap = capacity as int;
    let mut occupied: Vec<bool> = Vec::new();
    let mut i: usize = 0;
    while i < capacity
        invariant
            i <= capacity,
            occupied@ =~= Seq::new(i as nat, |j: int| false),
        decreases capacity - i,
    {
        occupied.push(false);
        i += 1;
    }
    let ghost empty = occupied@;
    assert(empty == no_occupied(cap as nat));
    proof {
        lemma_none_occupied(empty, cap);
    }

    let (low_bucket, high_bucket) = {
        proof {
            lemma_owned_end_bounded(local_bucket_count as int, parallelism as int, thread_index as int);
        }
        get_owned_range(local_bucket_count, parallelism, thread_index)
    };
    proof {
        lemma_pow2_div(shared_bucket_counts@.len() as int, local_bucket_count as int);
    }
    let scale = shared_bucket_counts.len() / local_bucket_count;
    proof {
        assert(high_bucket * scale <= shared_bucket_counts@.len()) by (nonlinear_arith)
            requires
                high_bucket <= local_bucket_count,
                shared_bucket_counts@.len() == scale * local_bucket_count,
                scale >= 0;
        assert(low_bucket * scale <= high_bucket * scale) by (nonlinear_arith)
            requires low_bucket <= high_bucket, scale >= 0;
    }
    let low_owned_counter_index = low_bucket * scale;
    let high_owned_counter_index = high_bucket * scale;
    let ghost low = low_owned_counter_index as int;
    let ghost high = high_owned_counter_index as int;
    let ghost total = entries_count(tables, tables.len() as int);
    assert((low, high) == owned_counters(parallelism as int, thread_index as int, local_bucket_count as int, counts.len() as int));

    let partitioner = LocalTablePartitioner::new(shared_bucket_counts.len());
    proof {
        partitioner.lemma_of_partitions();
    }
    proof {
        lemma_pow2_div(cap, cap);
    }
    let table_bucket_mask = capacity - 1;
    let ghost mask = table_bucket_mask;
    proof {
        lemma_entries_count_grows(tables, 0, tables.len() as int);
        lemma_counts_sum_grows(counts, high, high, counts.len() as int);
        lemma_counts_sum_grows(counts, 0, 0, low);
    }

    // The partitions below those of this worker.
    let mut bucket_index: usize = 0;
    while bucket_index < low_owned_counter_index
        invariant
            bucket_index <= low_owned_counter_index,
            low == low_owned_counter_index,
            high == high_owned_counter_index,
            low <= high <= counts.len(),
            counts == shared_bucket_counts@,
            partitioner.wf(),
            LocalTablePartitioner::of_partitions(counts.len() as int) == partitioner,
            mask == table_bucket_mask,
            table_bucket_mask == cap - 1,
            power_of_two(cap),
            table_bucket_mask <= usize::MAX / 4,
            occupied@ == pretended(counts.len() as int, counts, mask, empty, 0, bucket_index as int),
            occupied@.len() == cap,
            free_below(occupied@, cap) + counts_sum(counts, 0, bucket_index as int) == cap,
            counts_sum(counts, 0, low) + total + counts_sum(counts, high, counts.len() as int) <= cap,
            0 <= total,
            0 <= counts_sum(counts, high, counts.len() as int),
        decreases low_owned_counter_index - bucket_index,
    {
        let count = shared_bucket_counts[bucket_index];
        proof {
            lemma_counts_sum_grows(counts, 0, bucket_index + 1, low);
            lemma_claims_complete(occupied@, count as nat, partitioner.masked_hash_of(bucket_index), mask);
        }
        pretend_to_write_hashes_to_map(&partitioner, table_bucket_mask, bucket_index, count, &mut occupied);
        bucket_index += 1;
    }
    let ghost low_occupied = occupied@;

    // The partitions of this worker, written for real.
    let ghost mut orders: Seq<Seq<LocalEntry>> = Seq::empty();
    let mut t: usize = 0;
    while t < local_merged_buckets.len()
        invariant
            t <= tables.len(),
            tables == local_merged_buckets@,
            orders.len() == t,
            forall|j: int| 0 <= j < t ==> enumerates(#[trigger] orders[j], local_table_entries(tables[j])),
            orders.flatten().len() == entries_count(tables, t as int),
            mask == table_bucket_mask,
            table_bucket_mask == cap - 1,
            power_of_two(cap),
            table_bucket_mask <= usize::MAX / 4,
            destination@.len() == cap,
            occupied@.len() == cap,
            occupied@ == written_slots(low_occupied, orders.flatten(), mask).0,
            destination@ == with_writes(dest0, orders.flatten(), written_slots(low_occupied, orders.flatten(), mask).1),
            free_below(occupied@, cap) + counts_sum(counts, 0, low) + entries_count(tables, t as int) == cap,
            counts_sum(counts, 0, low) + total + counts_sum(counts, high, counts.len() as int) <= cap,
            total == entries_count(tables, tables.len() as int),
            low <= high <= counts.len(),
            counts == shared_bucket_counts@,
        decreases tables.len() - t,
    {
        let entries = local_table_iter(&local_merged_buckets[t]);
        proof {
            lemma_enumeration_len(entries@, local_table_entries(tables[t as int]));
            lemma_entries_count_grows(tables, t + 1, tables.len() as int);
            lemma_counts_sum_grows(counts, high, high, counts.len() as int);
        }
        let ghost done = orders.flatten();
        let mut k: usize = 0;
        while k < entries.len()
            invariant
                k <= entries@.len(),
                entries@.len() == local_table_entries(tables[t as int]).len(),
                t < tables.len(),
                mask == table_bucket_mask,
                table_bucket_mask == cap - 1,
                power_of_two(cap),
                table_bucket_mask <= usize::MAX / 4,
                destination@.len() == cap,
                occupied@.len() == cap,
                occupied@ == written_slots(low_occupied, done + entries@.take(k as int), mask).0,
                destination@ == with_writes(dest0, done + entries@.take(k as int),
                    written_slots(low_occupied, done + entries@.take(k as int), mask).1),
                free_below(occupied@, cap) + counts_sum(counts, 0, low) + entries_count(tables, t as int) + k == cap,
                counts_sum(counts, 0, low) + entries_count(tables, t + 1) <= cap,
                entries_count(tables, t + 1) == entries_count(tables, t as int) + entries@.len(),
            decreases entries@.len() - k,
        {
            let item = entries[k];
            let ghost items = done + entries@.take(k as int);
            proof {
                lemma_claims_complete(occupied@, 1, item.hash as usize, mask);
                lemma_write_step(low_occupied, dest0, items, item, mask);
                assert(done + entries@.take(k + 1) =~= items.push(item));
            }
            actually_write_hashes_to_map(table_bucket_mask, item.hash, item.global_index, &mut occupied, destination);
            k += 1;
        }
        proof {
            assert(entries@.take(entries@.len() as int) =~= entries@);
            lemma_flatten_push(orders, entries@);
            orders = orders.push(entries@);
            assert forall|j: int| 0 <= j < t + 1 implies enumerates(#[trigger] orders[j], local_table_entries(tables[j])) by {
                if j < t {
                    assert(orders[j] == orders.drop_last()[j]);
                }
            }
        }
        t += 1;
    }
    let ghost written = destination@;
    assert(writes_in_order(dest0, written, orders, tables, low_occupied, mask));
    proof {
        let items = orders.flatten();
        lemma_writes_land_in_own_slots(dest0, low_occupied, items, mask);
        let slots = written_slots(low_occupied, items, mask).1;
        assert forall|i: int, th: u64| 0 <= i < tables.len() && #[trigger] local_table_entries(tables[i]).contains_key(th)
            implies exists|s: int| 0 <= s < written.len() && written[s] == Some((
                local_table_entries(tables[i])[th].hash, local_table_entries(tables[i])[th].global_index)) by {
            let entries = local_table_entries(tables[i]);
            assert(enumerates(orders[i], entries));
            assert(entry_keys(orders[i]).to_set().contains(th));
            let k = choose|k: int| 0 <= k < entry_keys(orders[i]).len() && entry_keys(orders[i])[k] == th;
            assert(orders[i][k].transformed_hash == th);
            assert(entries[th] == orders[i][k]);
            lemma_in_flatten(orders, i, k);
            let m = choose|m: int| 0 <= m < items.len() && #[trigger] items[m] == orders[i][k];
            assert(written[slots[m] as int] == Some((items[m].hash, items[m].global_index)));
        }
    }

    // The partitions above those of this worker.
    let mut bucket_index = high_owned_counter_index;
    while bucket_index < shared_bucket_counts.len()
        invariant
            high <= bucket_index <= counts.len(),
            high == high_owned_counter_index,
            counts == shared_bucket_counts@,
            partitioner.wf(),
            mask == table_bucket_mask,
            table_bucket_mask == cap - 1,
            power_of_two(cap),
            table_bucket_mask <= usize::MAX / 4,
            occupied@.len() == cap,
            destination@ == written,
            free_below(occupied@, cap) + counts_sum(counts, 0, low) + total + counts_sum(counts, high, bucket_index as int) == cap,
            counts_sum(counts, 0, low) + total + counts_sum(counts, high, counts.len() as int) <= cap,
        decreases counts.len() - bucket_index,
    {
        let count = shared_bucket_counts[bucket_index];
        proof {
            lemma_counts_sum_grows(counts, high, bucket_index + 1, counts.len() as int);
            lemma_claims_complete(occupied@, count as nat, partitioner.masked_hash_of(bucket_index), mask);
        }
        pretend_to_write_hashes_to_map(&partitioner, table_bucket_mask, bucket_index, count, &mut occupied);
        bucket_index += 1;
    }
}

} // verus!
