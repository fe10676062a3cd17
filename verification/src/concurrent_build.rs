//! The bookkeeping of a build that first partitions the input hashes into
//! local tables and then merges the partitions into one table.
//!
//! A partition index comes from the low bits of a hash, read in reverse
//! order, so that neighbouring partitions hold hashes whose low bits differ
//! only at the top of the partition bits. Each input value gets an insertion
//! index one past its position in the global order, leaving index 0 free to
//! mark the end of a chain of duplicates.

use vstd::prelude::*;
use crate::power_of_two::{power_of_two, lemma_mask_is_mod};
use crate::bit_facts::lemma_usize_bit_ext;

verus! {

/// The number of leading zero bits of a `usize`, as `usize::leading_zeros`
/// documents it: the highest set bit is bit `usize::BITS - 1 - r`, nothing
/// above it is set, and `r` is the full width exactly for zero.
pub assume_specification[ usize::leading_zeros ](x: usize) -> (r: u32)
    ensures
        r <= usize::BITS,
        (x == 0) == (r == usize::BITS),
        r < usize::BITS ==> (x >> ((usize::BITS - 1 - r) as usize)) & 1 == 1,
        0 < r ==> x >> ((usize::BITS - r) as usize) == 0,
;

/// The bits of a `usize` in reverse order, as `usize::reverse_bits`
/// documents it: bit `i` of the result is bit `usize::BITS - 1 - i` of the
/// argument.
pub assume_specification[ usize::reverse_bits ](x: usize) -> (r: usize)
    ensures
        forall|i: usize| i < usize::BITS ==> #[trigger] ((r >> i) & 1) == (x >> ((usize::BITS - 1 - i) as usize)) & 1,
;

/// Bit `i` of `x`.
pub open spec fn usize_bit(x: usize, i: int) -> bool {
    (x >> (i as usize)) & 1 == 1
}

/// The top seven bits of a hash, which a SwissTable keeps as its tag.
pub const TAG_BITS_MASK: u64 = 0xFE00_0000_0000_0000;

/// Splits hashes over a number of local tables by their low bits.
pub struct LocalTablePartitioner {
    tag_bits_mask: u64,
    partition_bits_mask: usize,
    partition_bits_count: u32,
    remaining_bits_count: u32,
    reverse_bits_shift: u32,
}

proof fn lemma_shift_bits(x: usize, s: usize, i: usize)
    by (bit_vector)
    requires
        s < usize::BITS,
        i < usize::BITS,
    ensures
        i + s < usize::BITS ==> ((x >> s) >> i) & 1 == (x >> (i + s)) & 1,
        i + s >= usize::BITS ==> ((x >> s) >> i) & 1 == 0,
        i >= s ==> ((x << s) >> i) & 1 == (x >> ((i - s) as usize)) & 1,
        i < s ==> ((x << s) >> i) & 1 == 0,
        x >> s == 0 ==> i >= s ==> (x >> i) & 1 == 0,
{
}

/// A value with no bits from `w` up is at most a mask whose bits are
/// exactly those below `w`.
proof fn lemma_below_mask(r: usize, mask: usize, w: usize)
    by (bit_vector)
    requires
        1 <= w <= usize::BITS,
        r >> w == 0,
        (mask >> ((w - 1) as usize)) & 1 == 1,
        ((mask + 1) as usize) & mask == 0,
    ensures
        r <= mask,
{
}

proof fn lemma_shifted_high_bits(x: usize, s: usize)
    by (bit_vector)
    requires
        1 <= s < usize::BITS,
    ensures
        (x >> s) >> ((usize::BITS - s) as usize) == 0,
{
}

/// The position of the highest set bit of a mask is unique.
proof fn lemma_top_bit_unique(mask: usize, s1: usize, s2: usize)
    by (bit_vector)
    requires
        s1 < usize::BITS,
        1 <= s2 < usize::BITS,
        (mask >> ((usize::BITS - 1 - s1) as usize)) & 1 == 1,
        mask >> ((usize::BITS - s2) as usize) == 0,
    ensures
        s1 >= s2,
{
}

proof fn lemma_masked_high_bits(x: usize, mask: usize, top: usize)
    by (bit_vector)
    requires
        mask >> top == 0,
    ensures
        (x & mask) >> top == 0,
{
}

/// A mask one below a power of two has every bit below its top bit set,
/// and no value up to it has a bit from its width up.
proof fn lemma_low_mask_bits(mask: usize, w: usize, j: usize, p: usize)
    by (bit_vector)
    requires
        1 <= w < usize::BITS,
        (mask >> ((w - 1) as usize)) & 1 == 1,
        mask >> w == 0,
        ((mask + 1) as usize) & mask == 0,
        j < usize::BITS,
    ensures
        j < w ==> (mask >> j) & 1 == 1,
        p <= mask && j >= w ==> (p >> j) & 1 == 0,
{
}

/// A bit of a conjunction is the conjunction of the bits.
proof fn lemma_and_bit(a: usize, b: usize, j: usize)
    by (bit_vector)
    requires
        j < usize::BITS,
    ensures
        ((a & b) >> j) & 1 == 1 <==> ((a >> j) & 1 == 1 && (b >> j) & 1 == 1),
{
}

/// A `usize` survives the trip through `u64`.
proof fn lemma_usize_through_u64(x: usize)
    by (bit_vector)
    ensures
        (x as u64) as usize == x,
{
}

impl LocalTablePartitioner {
    /// The number of partitions.
    pub closed spec fn partitions(&self) -> int {
        self.partition_bits_mask + 1
    }

    /// The largest partition index, which masks a hash down to its partition
    /// bits.
    pub closed spec fn partition_mask(&self) -> usize {
        self.partition_bits_mask
    }

    /// The number of leading zero bits of the largest partition index.
    pub closed spec fn reverse_shift(&self) -> int {
        self.reverse_bits_shift as int
    }

    /// The number of bits the partition index is taken from, counted on a
    /// 64-bit hash.
    pub closed spec fn partition_bits(&self) -> int {
        self.partition_bits_count as int
    }

    /// `partition` is the partition of `hash`: bit `i` of it is bit
    /// `w - 1 - i` of the hash under the partition mask, where `w` is the
    /// number of significant bits of the largest partition index, and zero
    /// from bit `w` up.
    pub open spec fn is_partition_of(&self, hash: u64, partition: usize) -> bool {
        forall|i: int| 0 <= i < usize::BITS ==> #[trigger] usize_bit(partition, i)
            == (i < usize::BITS - self.reverse_shift()
                && usize_bit(hash as usize & self.partition_mask(), usize::BITS - 1 - self.reverse_shift() - i))
    }

    /// `masked` is the masked hash of the partition `partition_index`: bit
    /// `i` of it is bit `usize::BITS - 1 - i - s` of the index, where `s` is
    /// the number of leading zero bits of the largest partition index, and
    /// zero where that position is negative.
    pub open spec fn is_masked_hash_of(&self, partition_index: usize, masked: usize) -> bool {
        forall|i: int| 0 <= i < usize::BITS ==> #[trigger] usize_bit(masked, i)
            == (usize::BITS - 1 - i >= self.reverse_shift()
                && usize_bit(partition_index, usize::BITS - 1 - i - self.reverse_shift()))
    }

    /// A hash has one partition.
    pub proof fn lemma_partition_unique(&self, hash: u64, p1: usize, p2: usize)
        requires
            self.is_partition_of(hash, p1),
            self.is_partition_of(hash, p2),
        ensures
            p1 == p2,
    {
        assert forall|i: usize| i < usize::BITS implies (((#[trigger] (p1 >> i) & 1) == 1) == (((p2 >> i) & 1) == 1)) by {
            assert(usize_bit(p1, i as int) == usize_bit(p2, i as int));
        }
        lemma_usize_bit_ext(p1, p2);
    }

    /// The partitioner of `partitions` partitions: there is only one.
    pub open spec fn of_partitions(partitions: int) -> LocalTablePartitioner {
        choose|p: LocalTablePartitioner| p.wf() && p.partitions() == partitions
    }

    /// Two partitioners with the same number of partitions are the same.
    pub proof fn lemma_same_partitions(&self, other: &LocalTablePartitioner)
        requires
            self.wf(),
            other.wf(),
            self.partitions() == other.partitions(),
        ensures
            *self == *other,
    {
        let mask = self.partition_bits_mask;
        lemma_top_bit_unique(mask, self.reverse_bits_shift as usize, other.reverse_bits_shift as usize);
        lemma_top_bit_unique(mask, other.reverse_bits_shift as usize, self.reverse_bits_shift as usize);
    }

    /// A partitioner is the partitioner of its number of partitions.
    pub proof fn lemma_of_partitions(&self)
        requires
            self.wf(),
        ensures
            Self::of_partitions(self.partitions()) == *self,
    {
        let q = Self::of_partitions(self.partitions());
        assert(q.wf() && q.partitions() == self.partitions());
        self.lemma_same_partitions(&q);
    }

    /// The masked hash of partition `partition_index`.
    pub open spec fn masked_hash_of(&self, partition_index: usize) -> usize {
        choose|m: usize| self.is_masked_hash_of(partition_index, m)
    }

    /// A partition has one masked hash.
    pub proof fn lemma_masked_hash_unique(&self, partition_index: usize, m1: usize, m2: usize)
        requires
            self.is_masked_hash_of(partition_index, m1),
            self.is_masked_hash_of(partition_index, m2),
        ensures
            m1 == m2,
    {
        assert forall|i: usize| i < usize::BITS implies (((#[trigger] (m1 >> i) & 1) == 1) == (((m2 >> i) & 1) == 1)) by {
            assert(usize_bit(m1, i as int) == usize_bit(m2, i as int));
        }
        lemma_usize_bit_ext(m1, m2);
    }

    /// The transformed hash of `hash`: the top seven bits stay, the masked
    /// partition bits follow, and the rest of the hash below the top seven
    /// bits, shifted down past the partition bits, fills the low end.
    pub open spec fn spec_transformed_hash(&self, hash: u64) -> u64 {
        (hash & TAG_BITS_MASK)
            | ((hash & (self.partition_mask() as u64)) << (57 - self.partition_bits()) as u64)
            | ((hash & !TAG_BITS_MASK) >> self.partition_bits() as u64)
    }

    /// The masked hash of a hash's partition is the hash under the partition
    /// mask: every bit of the one is the same bit of the other.
    pub proof fn lemma_partition_round_trip(&self, hash: u64, partition: usize, masked: usize)
        requires
            self.wf(),
            self.is_partition_of(hash, partition),
            self.is_masked_hash_of(partition, masked),
        ensures
            forall|i: int| 0 <= i < usize::BITS ==> #[trigger] usize_bit(masked, i)
                == usize_bit(hash as usize & self.partition_mask(), i),
    {
        let mask = self.partition_bits_mask;
        let s = self.reverse_bits_shift as int;
        let h = hash as usize & mask;
        assert forall|i: int| 0 <= i < usize::BITS implies #[trigger] usize_bit(masked, i)
            == usize_bit(h, i) by {
            if usize::BITS - 1 - i >= s {
                let j = usize::BITS - 1 - i - s;
                assert(usize_bit(partition, j) == usize_bit(h, i));
            } else {
                let top = (usize::BITS - s) as usize;
                assert(h >> top == 0) by {
                    lemma_masked_high_bits(hash as usize, mask, top);
                }
                lemma_shift_bits(h, top, i as usize);
            }
        }
    }

    /// What a partitioner's numbers are: the partition mask is one below
    /// the number of partitions, its highest set bit is bit
    /// `usize::BITS - 1 - reverse_shift()` with nothing set above, at least
    /// seven top bits are clear, and the partition bits are counted on a
    /// 64-bit hash.
    pub proof fn lemma_shape(&self)
        requires
            self.wf(),
        ensures
            self.partitions() >= 2,
            self.partition_mask() == self.partitions() - 1,
            7 <= self.reverse_shift() < usize::BITS,
            usize_bit(self.partition_mask(), usize::BITS - 1 - self.reverse_shift()),
            self.partition_mask() >> ((usize::BITS - self.reverse_shift()) as usize) == 0,
            self.partition_bits() == 64 - self.reverse_shift(),
    {
    }

    /// The partition of the masked hash of a partition index is that index,
    /// for a power-of-two number of partitions.
    pub proof fn lemma_masked_hash_round_trip(&self, partition_index: usize, masked: usize, partition: usize)
        requires
            self.wf(),
            power_of_two(self.partitions()),
            partition_index < self.partitions(),
            self.is_masked_hash_of(partition_index, masked),
            self.is_partition_of(masked as u64, partition),
        ensures
            partition == partition_index,
    {
        let mask = self.partition_bits_mask;
        let s = self.reverse_bits_shift as int;
        let w = (usize::BITS - s) as usize;
        lemma_mask_is_mod((mask + 1) as usize, (mask + 1) as usize);
        lemma_usize_through_u64(masked);
        assert forall|i: usize| i < usize::BITS implies (((#[trigger] (partition >> i) & 1) == 1)
            == (((partition_index >> i) & 1) == 1)) by {
            lemma_low_mask_bits(mask, w, i, partition_index);
            assert(usize_bit(partition, i as int) == (i < w && usize_bit(masked & mask, usize::BITS - 1 - s - i)));
            if i < w {
                let j = (usize::BITS - 1 - s - i) as usize;
                lemma_and_bit(masked, mask, j);
                lemma_low_mask_bits(mask, w, j, partition_index);
                assert(usize_bit(masked, j as int) == usize_bit(partition_index, usize::BITS - 1 - j - s));
            }
        }
        lemma_usize_bit_ext(partition, partition_index);
    }

    /// The partitioner's internal invariant.
    pub closed spec fn wf(&self) -> bool {
        let mask = self.partition_bits_mask;
        let shift = self.reverse_bits_shift;
        &&& self.tag_bits_mask == TAG_BITS_MASK
        &&& mask >= 1
        &&& mask < usize::MAX
        &&& shift < usize::BITS
        &&& 7 <= shift
        &&& (mask >> ((usize::BITS - 1 - shift) as usize)) & 1 == 1
        &&& mask >> ((usize::BITS - shift) as usize) == 0
        &&& self.partition_bits_count == 64 - shift
        &&& self.remaining_bits_count == 64 - 7 - self.partition_bits_count
    }

    /// A partitioner over `table_partitions` tables. The largest partition
    /// index must leave the top seven bits of a `usize` clear.
    pub fn new(table_partitions: usize) -> (r: Self)
        requires
            table_partitions > 1,
            ((table_partitions - 1) as usize) >> ((usize::BITS - 7) as usize) == 0,
        ensures
            r.wf(),
            r.partitions() == table_partitions,
            r.partition_mask() == table_partitions - 1,
            usize_bit(r.partition_mask(), usize::BITS - 1 - r.reverse_shift()),
            r.partition_mask() >> ((usize::BITS - r.reverse_shift()) as usize) == 0,
            r.partition_bits() == 64 - r.reverse_shift(),
    {
        let tag_bits_mask = u64::MAX >> (64 - 7) << (64 - 7);
        proof {
            crate::bit_facts::lemma_u64_lanes(0, 0);
        }
        let partition_bits_mask = table_partitions - 1;
        let leading_zeros = partition_bits_mask.leading_zeros();
        proof {
            let mask = partition_bits_mask;
            assert(usize::BITS == 32 || usize::BITS == 64);
            if leading_zeros < 7 {
                let k = (usize::BITS - 1 - leading_zeros) as usize;
                let top = (usize::BITS - 7) as usize;
                assert(mask >> top == 0);
                lemma_shift_bits(mask, top, k);
            }
        }
        let partition_bits_count = 64 - leading_zeros;
        let remaining_bits_count = 64 - 7 - partition_bits_count;
        let reverse_bits_shift = leading_zeros;
        Self {
            tag_bits_mask,
            partition_bits_mask,
            partition_bits_count,
            remaining_bits_count,
            reverse_bits_shift,
        }
    }

    /// The partition of `hash`: its bits under the partition mask, reversed
    /// within the width of the mask. Bit `i` of the result is bit
    /// `w - 1 - i` of the masked hash, where `w` is the number of significant
    /// bits of the largest partition index.
    pub fn get_local_table_partition(&self, hash: u64) -> (r: usize)
        requires
            self.wf(),
        ensures
            self.is_partition_of(hash, r),
            power_of_two(self.partitions()) ==> r < self.partitions(),
    {
        let masked = hash as usize & self.partition_bits_mask;
        let reversed = masked.reverse_bits();
        let shift = self.reverse_bits_shift as usize;
        let r = reversed >> shift;
        proof {
            assert forall|i: int| 0 <= i < usize::BITS implies #[trigger] usize_bit(r, i)
                == (i < usize::BITS - self.reverse_shift()
                    && usize_bit(masked, usize::BITS - 1 - self.reverse_shift() - i)) by {
                lemma_shift_bits(reversed, shift, i as usize);
                if i + shift < usize::BITS {
                    let j = (i + shift) as usize;
                    assert(((reversed >> j) & 1) == (masked >> ((usize::BITS - 1 - j) as usize)) & 1);
                }
            }
            if power_of_two(self.partitions()) {
                let mask = self.partition_bits_mask;
                lemma_shifted_high_bits(reversed, shift);
                lemma_mask_is_mod((mask + 1) as usize, (mask + 1) as usize);
                lemma_below_mask(r, mask, (usize::BITS - shift) as usize);
            }
        }
        r
    }

    /// The masked hash bits of the hashes in partition `partition_index`: the
    /// inverse of [`LocalTablePartitioner::get_local_table_partition`] on the
    /// bits under the partition mask. Bit `i` of the result is bit
    /// `usize::BITS - 1 - i - s` of the index, where `s` is the number of
    /// leading zero bits of the largest partition index, and zero where that
    /// position is negative.
    pub fn get_masked_hash_in_partition(&self, partition_index: usize) -> (r: usize)
        requires
            self.wf(),
        ensures
            self.is_masked_hash_of(partition_index, r),
    {
        let shift = self.reverse_bits_shift as usize;
        let shifted = partition_index << shift;
        let r = shifted.reverse_bits();
        proof {
            assert forall|i: int| 0 <= i < usize::BITS implies #[trigger] usize_bit(r, i)
                == (usize::BITS - 1 - i >= self.reverse_shift()
                    && usize_bit(partition_index, usize::BITS - 1 - i - self.reverse_shift())) by {
                let j = (usize::BITS - 1 - i) as usize;
                assert(((r >> (i as usize)) & 1) == (shifted >> j) & 1);
                lemma_shift_bits(partition_index, shift, j);
            }
        }
        r
    }

    /// Moves the partition bits of `hash` to just below its top seven bits
    /// and the bits between them down to the bottom: the top seven bits stay,
    /// the masked partition bits follow, and the rest of the hash below the
    /// top seven bits, shifted down past the partition bits, fills the low
    /// end.
    pub fn get_transformed_hash(&self, hash: u64) -> (r: u64)
        requires
            self.wf(),
        ensures
            r == self.spec_transformed_hash(hash),
    {
        // Leave the high 7 bits for the SwissTable tag.
        let tag = hash & self.tag_bits_mask;
        // The partition bits become the highest bits after the tag.
        let partition_bits = (hash & self.partition_bits_mask as u64) << self.remaining_bits_count;
        // The bits in between become the lowest bits.
        let remaining_bits = (hash & !self.tag_bits_mask) >> self.partition_bits_count;
        tag | partition_bits | remaining_bits
    }
}

/// The insertion index of the value at `local_index` of an input whose
/// values start at `global_offset` in the global order.
pub fn get_insertion_index(global_offset: usize, local_index: usize) -> (r: usize)
    requires
        global_offset + local_index + 1 <= usize::MAX,
    ensures
        r == global_offset + local_index + 1,
{
    global_offset + local_index + 1
}

/// The first slot of the group and the stride after `k` steps of a
/// SwissTable probe that starts at `start` in a table with mask `mask`:
/// each step grows the stride by a group and moves on by the stride.
pub open spec fn swiss_probe(start: usize, mask: usize, k: nat) -> (int, int)
    decreases k,
{
    if k == 0 {
        ((start & mask) as int, 0)
    } else {
        let previous = swiss_probe(start, mask, (k - 1) as nat);
        let stride = previous.1 + 8;
        (((previous.0 + stride) as usize & mask) as int, stride)
    }
}

/// The `n`th slot that the probe visits: group `n / 8`, position `n % 8`.
pub open spec fn swiss_probe_slot(start: usize, mask: usize, n: nat) -> int {
    ((swiss_probe(start, mask, n / 8).0 + n % 8) as usize & mask) as int
}

/// The occupancy, the number of slots still to claim and the claimed slots,
/// after the probe visited `n` slots, claiming each free one it meets until
/// `count` are claimed.
pub open spec fn claimed_after(occupied: Seq<bool>, count: nat, start: usize, mask: usize, n: nat) -> (Seq<bool>, nat, Seq<usize>)
    decreases n,
{
    if n == 0 {
        (occupied, count, Seq::empty())
    } else {
        let (o, remaining, claimed) = claimed_after(occupied, count, start, mask, (n - 1) as nat);
        let slot = swiss_probe_slot(start, mask, (n - 1) as nat);
        if remaining == 0 || o[slot] {
            (o, remaining, claimed)
        } else {
            (o.update(slot, true), (remaining - 1) as nat, claimed.push(slot as usize))
        }
    }
}

/// The number of slots the probe may visit: every group up to the one at
/// which its stride passes the mask.
pub open spec fn probe_visit_bound(mask: usize) -> nat {
    (8 * (mask / 8 + 2)) as nat
}

proof fn lemma_probe_in_table(start: usize, mask: usize, k: nat)
    requires
        mask <= usize::MAX / 4,
        k <= mask / 8 + 1,
    ensures
        0 <= swiss_probe(start, mask, k).0 <= mask,
        swiss_probe(start, mask, k).1 == 8 * k,
    decreases k,
{
    crate::bit_facts::lemma_usize_mask(start, mask, 0);
    if k > 0 {
        lemma_probe_in_table(start, mask, (k - 1) as nat);
        let previous = swiss_probe(start, mask, (k - 1) as nat);
        crate::bit_facts::lemma_usize_mask((previous.0 + previous.1 + 8) as usize, mask, 0);
    }
}

/// Claims, for the `count` hashes of partition `bucket_index`, slots of a
/// table with mask `table_bucket_mask`, where inserting them would put them:
/// following the SwissTable probe of the partition's masked hash, each free
/// slot met is marked occupied and claimed, until `count` are claimed.
/// Returns the claimed slots in the order they were claimed.
pub fn pretend_to_write_hashes_to_map(
    partitioner: &LocalTablePartitioner,
    table_bucket_mask: usize,
    bucket_index: usize,
    count: usize,
    occupied: &mut Vec<bool>,
) -> (r: Vec<usize>)
    requires
        partitioner.wf(),
        table_bucket_mask <= usize::MAX / 4,
        old(occupied)@.len() > table_bucket_mask,
        count > 0 ==> claimed_after(old(occupied)@, count as nat, partitioner.masked_hash_of(bucket_index),
            table_bucket_mask, probe_visit_bound(table_bucket_mask)).1 == 0,
    ensures
        count == 0 ==> r@ == Seq::<usize>::empty() && final(occupied)@ == old(occupied)@,
        count > 0 ==> {
            let result = claimed_after(old(occupied)@, count as nat, partitioner.masked_hash_of(bucket_index),
                table_bucket_mask, probe_visit_bound(table_bucket_mask));
            &&& r@ == result.2
            &&& final(occupied)@ == result.0
        },
{
    if count == 0 {
        return Vec::new();
    }
    let example_masked_hash = partitioner.get_masked_hash_in_partition(bucket_index);
    proof {
        partitioner.lemma_masked_hash_unique(bucket_index, example_masked_hash, partitioner.masked_hash_of(bucket_index));
    }
    claim_slots(example_masked_hash, table_bucket_mask, count, occupied)
}

/// Follows the SwissTable probe that starts at `start` in a table with mask
/// `table_bucket_mask`, marking each free slot met occupied and claiming it,
/// until `count` slots are claimed. Returns the claimed slots in the order
/// they were claimed.
pub(crate) fn claim_slots(start: usize, table_bucket_mask: usize, count: usize, occupied: &mut Vec<bool>) -> (r: Vec<usize>)
    requires
        table_bucket_mask <= usize::MAX / 4,
        old(occupied)@.len() > table_bucket_mask,
        count > 0,
        claimed_after(old(occupied)@, count as nat, start, table_bucket_mask, probe_visit_bound(table_bucket_mask)).1 == 0,
    ensures
        ({
            let result = claimed_after(old(occupied)@, count as nat, start, table_bucket_mask, probe_visit_bound(table_bucket_mask));
            &&& r@ == result.2
            &&& final(occupied)@ == result.0
        }),
{
    let ghost occ0 = occupied@;
    assert(occ0 == old(occupied)@);
    let ghost mask = table_bucket_mask;
    let ghost bound = probe_visit_bound(mask);
    let mut pos = start & table_bucket_mask;
    let mut stride: usize = 0;
    let mut remaining = count;
    let mut claimed: Vec<usize> = Vec::new();
    let ghost mut k: nat = 0;
    loop
        invariant
            mask == table_bucket_mask,
            table_bucket_mask <= usize::MAX / 4,
            occupied@.len() == occ0.len(),
            occ0.len() > table_bucket_mask,
            bound == probe_visit_bound(mask),
            claimed_after(occ0, count as nat, start, mask, bound).1 == 0,
            k <= table_bucket_mask / 8 + 1,
            (pos as int, stride as int) == swiss_probe(start, mask, k),
            0 < remaining,
            count > 0,
            occ0 == old(occupied)@,
            (occupied@, remaining as nat, claimed@) == claimed_after(occ0, count as nat, start, mask, 8 * k),
        decreases bound - 8 * k,
    {
        let mut group_pos: usize = 0;
        proof {
            lemma_probe_in_table(start, mask, k);
        }
        while group_pos < 8
            invariant
                mask == table_bucket_mask,
                table_bucket_mask <= usize::MAX / 4,
                occupied@.len() == occ0.len(),
                occ0.len() > table_bucket_mask,
                (pos as int, stride as int) == swiss_probe(start, mask, k),
                0 <= pos <= table_bucket_mask,
                count > 0,
                occ0 == old(occupied)@,
                bound == probe_visit_bound(mask),
                k <= table_bucket_mask / 8 + 1,
                group_pos <= 8,
                0 < remaining,
                (occupied@, remaining as nat, claimed@) == claimed_after(occ0, count as nat, start, mask, (8 * k + group_pos) as nat),
            decreases 8 - group_pos,
        {
            let index = (pos + group_pos) & table_bucket_mask;
            proof {
                crate::bit_facts::lemma_usize_mask((pos + group_pos) as usize, table_bucket_mask, 0);
                let n = (8 * k + group_pos) as nat;
                assert(n / 8 == k && n % 8 == group_pos) by (nonlinear_arith)
                    requires n == 8 * k + group_pos, group_pos < 8;
                assert(swiss_probe_slot(start, mask, n) == index);
            }
            let was_occupied = occupied[index];
            occupied.set(index, true);
            if !was_occupied {
                remaining = remaining - 1;
                claimed.push(index);
                if remaining == 0 {
                    proof {
                        let n = (8 * k + group_pos + 1) as nat;
                        assert(n <= bound) by (nonlinear_arith)
                            requires n == 8 * k + group_pos + 1, group_pos < 8, k <= mask / 8 + 1,
                                bound == 8 * (mask / 8 + 2);
                        lemma_claimed_stays(occ0, count as nat, start, mask, n, bound);
                    }
                    return claimed;
                }
            }
            group_pos += 1;
        }
        proof {
            if 8 * (k + 1) >= bound {
                // The probe would pass its end with slots still to claim.
                lemma_claimed_stays(occ0, count as nat, start, mask, 8 * (k + 1), bound);
                assert(false);
            }
        }
        stride = stride + 8;
        pos = (pos + stride) & table_bucket_mask;
        proof {
            k = k + 1;
        }
    }
}

/// Once the count is claimed, further visits change nothing; before that,
/// the number still to claim only falls.
pub(crate) proof fn lemma_claimed_stays(occupied: Seq<bool>, count: nat, start: usize, mask: usize, a: nat, b: nat)
    requires
        a <= b,
    ensures
        claimed_after(occupied, count, start, mask, b).1 <= claimed_after(occupied, count, start, mask, a).1,
        claimed_after(occupied, count, start, mask, a).1 == 0 ==> claimed_after(occupied, count, start, mask, b)
            == claimed_after(occupied, count, start, mask, a),
    decreases b - a,
{
    if a < b {
        lemma_claimed_stays(occupied, count, start, mask, a, (b - 1) as nat);
    }
}

} // verus!
