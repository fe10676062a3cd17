//! Accumulating input hashes into a thread-local histogram.
//!
//! Every input value gets an insertion index, one past its position in the
//! global order, so that index 0 can mark the end of a chain. The histogram
//! keeps one entry per distinct hash: the insertion index of its latest
//! occurrence and where its first occurrence lives. Each input also gets an
//! overflow buffer, which links every occurrence to the one before it, so
//! that the occurrences of a hash form a chain from the latest back to the
//! first.

use std::collections::BTreeMap;
use vstd::prelude::*;
use crate::global_index_tracker::Offset;
use crate::power_of_two::{power_of_two, lemma_mask_is_mod};

verus! {

broadcast use vstd::std_specs::btree::group_btree_axioms;

/// The overflow buffer of one input: for every value, the insertion index of
/// the previous occurrence of its hash, or 0 where there is none.
#[derive(Debug, Clone, PartialEq)]
pub struct OrderedBuffer {
    pub global_buffer_index: usize,
    pub buffer_data: Vec<usize>,
}

/// Where a value sits: the thread, the input of that thread and the position
/// in that input.
#[derive(Debug, Clone, PartialEq, Eq, Structural)]
pub struct ChainItem {
    pub thread_index: usize,
    pub buffer_index: usize,
    pub vec_index: usize,
}

/// The histogram entry of one hash.
#[derive(Debug, Clone, PartialEq, Eq, Structural)]
pub struct HistogramEntry {
    pub hash: u64,
    /// The insertion index of the latest occurrence.
    pub value: usize,
    /// Where the first occurrence sits.
    pub end_of_chain: ChainItem,
}

/// The bucket that holds `hash` among `bucket_count` buckets.
pub open spec fn bucket_of(hash: u64, bucket_count: int) -> int {
    (hash as usize) as int % bucket_count
}

/// The position of the last occurrence of `hash` among the first `k` values
/// of `input`, or -1 when it does not occur there.
pub open spec fn last_occurrence(input: Seq<u64>, k: int, hash: u64) -> int
    decreases k,
{
    if k <= 0 {
        -1
    } else if input[k - 1] == hash {
        k - 1
    } else {
        last_occurrence(input, k - 1, hash)
    }
}

/// The position of the first occurrence of `hash` among the first `k`
/// values of `input`, or -1 when it does not occur there.
pub open spec fn first_occurrence(input: Seq<u64>, k: int, hash: u64) -> int
    decreases k,
{
    if k <= 0 {
        -1
    } else {
        let f = first_occurrence(input, k - 1, hash);
        if f >= 0 {
            f
        } else if input[k - 1] == hash {
            k - 1
        } else {
            -1
        }
    }
}

/// The entry of `hash` after the first `k` values of `input`, given at
/// `offset` by thread `thread_index`, went into a histogram whose entries
/// were `before`; `hash` occurs among those values.
pub open spec fn accumulated_entry(
    before: Map<u64, HistogramEntry>,
    thread_index: usize,
    offset: Offset,
    input: Seq<u64>,
    k: int,
    hash: u64,
) -> HistogramEntry {
    let value = (offset.size + last_occurrence(input, k, hash) + 1) as usize;
    if before.contains_key(hash) {
        HistogramEntry { hash: before[hash].hash, value, end_of_chain: before[hash].end_of_chain }
    } else {
        HistogramEntry {
            hash,
            value,
            end_of_chain: ChainItem {
                thread_index,
                buffer_index: offset.index,
                vec_index: first_occurrence(input, k, hash) as usize,
            },
        }
    }
}

/// Bucket `b` of `bucket_count` after the first `k` values of `input` went
/// into it, when it held `before`.
pub open spec fn accumulated_bucket(
    before: Map<u64, HistogramEntry>,
    b: int,
    bucket_count: int,
    thread_index: usize,
    offset: Offset,
    input: Seq<u64>,
    k: int,
) -> Map<u64, HistogramEntry> {
    Map::new(
        |h: u64| before.contains_key(h) || (bucket_of(h, bucket_count) == b && last_occurrence(input, k, h) >= 0),
        |h: u64|
            if bucket_of(h, bucket_count) == b && last_occurrence(input, k, h) >= 0 {
                accumulated_entry(before, thread_index, offset, input, k, h)
            } else {
                before[h]
            },
    )
}

/// What the overflow buffer holds for the value at `k`: the insertion index
/// of the previous occurrence of its hash in the input, else the latest
/// index that the histogram held for it, else 0.
pub open spec fn overflow_of(before: Map<u64, HistogramEntry>, offset: Offset, input: Seq<u64>, k: int) -> usize {
    let previous = last_occurrence(input, k, input[k]);
    if previous >= 0 {
        (offset.size + previous + 1) as usize
    } else if before.contains_key(input[k]) {
        before[input[k]].value
    } else {
        0
    }
}

/// A hash occurs among the first `k` values exactly when it has a first and
/// a last occurrence there, and they bound its positions.
proof fn lemma_occurrences(input: Seq<u64>, k: int, hash: u64)
    requires
        0 <= k <= input.len(),
    ensures
        (last_occurrence(input, k, hash) >= 0) == (first_occurrence(input, k, hash) >= 0),
        last_occurrence(input, k, hash) < k,
        first_occurrence(input, k, hash) < k,
        first_occurrence(input, k, hash) <= last_occurrence(input, k, hash),
    decreases k,
{
    if k > 0 {
        lemma_occurrences(input, k - 1, hash);
    }
}

/// The buckets of a histogram with `bucket_count` buckets, all empty.
pub fn new_histogram_buckets(bucket_count: usize) -> (r: Vec<BTreeMap<u64, HistogramEntry>>)
    ensures
        r@.len() == bucket_count,
        forall|b: int| 0 <= b < bucket_count ==> #[trigger] r@[b]@ == Map::<u64, HistogramEntry>::empty(),
{
    let mut buckets: Vec<BTreeMap<u64, HistogramEntry>> = Vec::new();
    let mut i: usize = 0;
    while i < bucket_count
        invariant
            i <= bucket_count,
            buckets@.len() == i,
            forall|b: int| 0 <= b < i ==> #[trigger] buckets@[b]@ == Map::<u64, HistogramEntry>::empty(),
        decreases bucket_count - i,
    {
        buckets.push(BTreeMap::new());
        i += 1;
    }
    buckets
}

/// Adds the hashes of `input`, which the tracker placed at `buffer_offset`,
/// to the histogram `buckets` of thread `thread_index`, and returns the
/// input's overflow buffer. The value at position `i` gets the insertion
/// index `buffer_offset.size + i + 1`. A new hash gets an entry that points
/// at this value as the end of its chain; a hash the histogram holds keeps
/// its entry, whose index moves to this value, and the index it held goes to
/// the overflow buffer at `i`.
pub fn locally_accumulate_input_into_histogram(
    thread_index: usize,
    buffer_offset: Offset,
    input: Vec<u64>,
    buckets: &mut Vec<BTreeMap<u64, HistogramEntry>>,
) -> (r: OrderedBuffer)
    requires
        power_of_two(old(buckets)@.len() as int),
        old(buckets)@.len() <= usize::MAX,
        buffer_offset.size + input@.len() + 1 <= usize::MAX,
    ensures
        final(buckets)@.len() == old(buckets)@.len(),
        forall|b: int| 0 <= b < old(buckets)@.len() ==> #[trigger] final(buckets)@[b]@ == accumulated_bucket(
            old(buckets)@[b]@, b, old(buckets)@.len() as int, thread_index, buffer_offset, input@, input@.len() as int),
        r.global_buffer_index == buffer_offset.index,
        r.buffer_data@.len() == input@.len(),
        forall|k: int| 0 <= k < input@.len() ==> #[trigger] r.buffer_data@[k] == overflow_of(
            old(buckets)@[bucket_of(input@[k], old(buckets)@.len() as int)]@, buffer_offset, input@, k),
{
    let bucket_count = buckets.len();
    proof {
        lemma_mask_is_mod(0, bucket_count);
    }
    let bucket_mask = bucket_count - 1;
    let ghost n = bucket_count as int;
    let ghost start = buckets@;
    let mut overflow: Vec<usize> = Vec::new();
    let mut z: usize = 0;
    while z < input.len()
        invariant
            z <= input@.len(),
            overflow@.len() == z,
            forall|k: int| 0 <= k < z ==> #[trigger] overflow@[k] == 0,
        decreases input@.len() - z,
    {
        overflow.push(0);
        z += 1;
    }
    let mut local_index: usize = 0;
    while local_index < input.len()
        invariant
            n == bucket_count,
            bucket_count == start.len(),
            bucket_mask == bucket_count - 1,
            power_of_two(n),
            n > 0,
            buffer_offset.size + input@.len() + 1 <= usize::MAX,
            local_index <= input@.len(),
            buckets@.len() == start.len(),
            overflow@.len() == input@.len(),
            forall|b: int| 0 <= b < n ==> #[trigger] buckets@[b]@ == accumulated_bucket(
                start[b]@, b, n, thread_index, buffer_offset, input@, local_index as int),
            forall|k: int| 0 <= k < local_index ==> #[trigger] overflow@[k] == overflow_of(
                start[bucket_of(input@[k], n)]@, buffer_offset, input@, k),
            forall|k: int| local_index <= k < input@.len() ==> #[trigger] overflow@[k] == 0,
        decreases input@.len() - local_index,
    {
        let hash = input[local_index];
        let insertion_index = (buffer_offset.size + local_index) + 1;
        let bucket_index = (#[verifier::truncate] (hash as usize)) & bucket_mask;
        proof {
            lemma_mask_is_mod(#[verifier::truncate] (hash as usize), bucket_count);
            lemma_occurrences(input@, local_index as int, hash);
            lemma_occurrences(input@, local_index + 1, hash);
        }
        let ghost k = local_index as int;
        let ghost bh = bucket_index as int;
        let ghost before = buckets@;
        let existing = match buckets[bucket_index].get(&hash) {
            Some(entry) => Some((entry.hash, entry.value, entry.end_of_chain.thread_index,
                entry.end_of_chain.buffer_index, entry.end_of_chain.vec_index)),
            None => None,
        };
        let new_entry = match existing {
            Some((h, value, t, b, v)) => {
                overflow.set(local_index, value);
                HistogramEntry {
                    hash: h,
                    value: insertion_index,
                    end_of_chain: ChainItem { thread_index: t, buffer_index: b, vec_index: v },
                }
            },
            None => HistogramEntry {
                hash,
                value: insertion_index,
                end_of_chain: ChainItem {
                    thread_index,
                    buffer_index: buffer_offset.index,
                    vec_index: local_index,
                },
            },
        };
        buckets[bucket_index].insert(hash, new_entry);
        proof {
            assert forall|b: int| 0 <= b < n implies #[trigger] buckets@[b]@ == accumulated_bucket(
                start[b]@, b, n, thread_index, buffer_offset, input@, k + 1) by {
                let old_map = accumulated_bucket(start[b]@, b, n, thread_index, buffer_offset, input@, k);
                let new_map = accumulated_bucket(start[b]@, b, n, thread_index, buffer_offset, input@, k + 1);
                assert(before[b]@ == old_map);
                assert forall|h: u64| h != hash implies last_occurrence(input@, k + 1, h) == last_occurrence(input@, k, h)
                    && first_occurrence(input@, k + 1, h) == first_occurrence(input@, k, h) by {
                    lemma_occurrences(input@, k, h);
                }
                if b == bh {
                    assert(buckets@[b]@ =~= new_map) by {
                        assert(last_occurrence(input@, k + 1, hash) == k);
                        if old_map.contains_key(hash) && !start[b]@.contains_key(hash) {
                            assert(first_occurrence(input@, k + 1, hash) == first_occurrence(input@, k, hash));
                        }
                    }
                } else {
                    assert(buckets@[b]@ =~= new_map);
                }
            }
            assert forall|j: int| 0 <= j < k + 1 implies #[trigger] overflow@[j] == overflow_of(
                start[bucket_of(input@[j], n)]@, buffer_offset, input@, j) by {
                if j == k {
                    let old_map = accumulated_bucket(start[bh]@, bh, n, thread_index, buffer_offset, input@, k);
                    assert(before[bh]@ == old_map);
                }
            }
        }
        local_index += 1;
    }
    OrderedBuffer {
        global_buffer_index: buffer_offset.index,
        buffer_data: overflow,
    }
}

} // verus!
