//! The thread-local tables of the partitioned build.
//!
//! Each thread spreads its input hashes over one table per partition. A
//! table keeps one entry per distinct transformed hash, keyed by it: the
//! latest insertion index of the hash and the insertion index of its first
//! occurrence, where its chain of duplicates ends. The overflow buffer of
//! an input links every repeated occurrence to the one before it.

use std::sync::Arc;
use vstd::prelude::*;
use crate::concurrent_build::{LocalTablePartitioner, get_insertion_index};
use crate::global_index_tracker::Offset;
use crate::power_of_two::power_of_two;
use crate::utils::{get_owned_range, owned_start, owned_end};

verus! {

/// The entry of one distinct transformed hash in a local table.
#[derive(Debug, Clone, Copy, PartialEq, Eq, Structural)]
pub struct LocalEntry {
    pub transformed_hash: u64,
    pub hash: u64,
    /// The insertion index of the latest occurrence.
    pub global_index: usize,
    /// The insertion index of the first occurrence.
    pub end_of_chain: usize,
}

/// A local table: a `hashbrown::HashTable` of entries, each stored with its
/// transformed hash as its hash.
#[verifier::external_body]
pub struct LocalTable {
    table: hashbrown::HashTable<LocalEntry>,
}

/// The entries of a local table, by transformed hash.
pub uninterp spec fn local_table_entries(table: LocalTable) -> Map<u64, LocalEntry>;

/// Whether `item` is stored under `transformed_hash`.
fn has_transformed_hash(item: &LocalEntry, transformed_hash: u64) -> (r: bool)
    ensures
        r == (item.transformed_hash == transformed_hash),
{
    item.transformed_hash == transformed_hash
}

/// An empty table, from `HashTable::with_capacity(0)`.
#[verifier::external_body]
fn new_local_table() -> (table: LocalTable)
    ensures
        local_table_entries(table).is_empty(),
{
    LocalTable { table: hashbrown::HashTable::with_capacity(0) }
}

/// `HashTable::find` with `transformed_hash` as the hash and equality of
/// transformed hashes: a copy of the entry stored under `transformed_hash`,
/// if there is one.
#[verifier::external_body]
fn local_table_find(table: &LocalTable, transformed_hash: u64) -> (r: Option<LocalEntry>)
    ensures
        r == (if local_table_entries(*table).contains_key(transformed_hash) {
            Some(local_table_entries(*table)[transformed_hash])
        } else {
            None
        }),
{
    table.table.find(transformed_hash, |item| has_transformed_hash(item, transformed_hash)).copied()
}

/// `HashTable::find_mut` with `transformed_hash` as the hash and equality of
/// transformed hashes: gives the entry stored under `transformed_hash` the
/// global index `global_index` and returns the one it held. Where there is
/// no such entry, the table stays as it is and the result is `None`.
#[verifier::external_body]
fn local_table_replace_global_index(table: &mut LocalTable, transformed_hash: u64, global_index: usize) -> (r: Option<usize>)
    ensures
        local_table_entries(*old(table)).contains_key(transformed_hash) ==> {
            let e = local_table_entries(*old(table))[transformed_hash];
            &&& r == Some(e.global_index)
            &&& local_table_entries(*final(table)) == local_table_entries(*old(table)).insert(
                transformed_hash,
                LocalEntry { global_index, ..e },
            )
        },
        !local_table_entries(*old(table)).contains_key(transformed_hash) ==> {
            &&& r == None::<usize>
            &&& local_table_entries(*final(table)) == local_table_entries(*old(table))
        },
{
    match table.table.find_mut(transformed_hash, |item| has_transformed_hash(item, transformed_hash)) {
        Some(item) => Some(std::mem::replace(&mut item.global_index, global_index)),
        None => None,
    }
}

/// `HashTable::insert_unique` with the entry's transformed hash as its hash:
/// stores `entry` under its transformed hash, which the table does not hold
/// yet.
#[verifier::external_body]
fn local_table_insert(table: &mut LocalTable, entry: LocalEntry)
    requires
        !local_table_entries(*old(table)).contains_key(entry.transformed_hash),
    ensures
        local_table_entries(*final(table)) == local_table_entries(*old(table)).insert(entry.transformed_hash, entry),
{
    table.table.insert_unique(entry.transformed_hash, entry, |item| item.transformed_hash);
}

impl LocalTable {
    /// The entry stored under `transformed_hash`, if there is one.
    pub fn find(&self, transformed_hash: u64) -> (r: Option<LocalEntry>)
        ensures
            r == (if local_table_entries(*self).contains_key(transformed_hash) {
                Some(local_table_entries(*self)[transformed_hash])
            } else {
                None
            }),
    {
        local_table_find(self, transformed_hash)
    }
}

/// The transformed hashes of `entries`, in order.
pub open spec fn entry_keys(entries: Seq<LocalEntry>) -> Seq<u64> {
    entries.map_values(|e: LocalEntry| e.transformed_hash)
}

/// `entries` lists the entries of `table` once each, in some order.
pub open spec fn enumerates(entries: Seq<LocalEntry>, table: Map<u64, LocalEntry>) -> bool {
    &&& entry_keys(entries).no_duplicates()
    &&& table.dom() == entry_keys(entries).to_set()
    &&& forall|k: int| 0 <= k < entries.len() ==> table[#[trigger] entries[k].transformed_hash] == entries[k]
}

/// `HashTable::iter`, each entry copied: every entry of the table once, in
/// the table's own order, which nothing here pins down.
#[verifier::external_body]
pub(crate) fn local_table_iter(table: &LocalTable) -> (r: Vec<LocalEntry>)
    ensures
        enumerates(r@, local_table_entries(*table)),
{
    table.table.iter().copied().collect()
}

/// `HashTable::clone`: a table with the same entries.
#[verifier::external_body]
fn local_table_clone(table: &LocalTable) -> (r: LocalTable)
    ensures
        local_table_entries(r) == local_table_entries(*table),
{
    LocalTable { table: table.table.clone() }
}

/// `count` empty local tables.
pub fn new_local_tables(count: usize) -> (r: Vec<LocalTable>)
    ensures
        r@.len() == count,
        forall|t: int| 0 <= t < count ==> local_table_entries(#[trigger] r@[t]) == Map::<u64, LocalEntry>::empty(),
        forall|t: int| 0 <= t < count ==> local_table_entries(#[trigger] r@[t]).dom().finite(),
{
    let mut tables: Vec<LocalTable> = Vec::new();
    let mut i: usize = 0;
    while i < count
        invariant
            i <= count,
            tables@.len() == i,
            forall|t: int| 0 <= t < i ==> local_table_entries(#[trigger] tables@[t]) == Map::<u64, LocalEntry>::empty(),
        decreases count - i,
    {
        tables.push(new_local_table());
        i += 1;
    }
    proof {
        assert forall|t: int| 0 <= t < count implies local_table_entries(#[trigger] tables@[t]).dom().finite() by {
            assert(local_table_entries(tables@[t]).dom() =~= Set::<u64>::empty());
        }
    }
    tables
}

/// The partition of `hash`.
pub open spec fn partition_of(partitioner: LocalTablePartitioner, hash: u64) -> usize {
    choose|p: usize| partitioner.is_partition_of(hash, p)
}

/// The position of the last value among the first `k` of `input` whose
/// transformed hash is `th` and whose partition is `t`, or -1.
pub open spec fn last_routed(partitioner: LocalTablePartitioner, input: Seq<u64>, k: int, th: u64, t: int) -> int
    decreases k,
{
    if k <= 0 {
        -1
    } else if partitioner.spec_transformed_hash(input[k - 1]) == th && partition_of(partitioner, input[k - 1]) == t {
        k - 1
    } else {
        last_routed(partitioner, input, k - 1, th, t)
    }
}

/// The position of the first value among the first `k` of `input` whose
/// transformed hash is `th` and whose partition is `t`, or -1.
pub open spec fn first_routed(partitioner: LocalTablePartitioner, input: Seq<u64>, k: int, th: u64, t: int) -> int
    decreases k,
{
    if k <= 0 {
        -1
    } else {
        let f = first_routed(partitioner, input, k - 1, th, t);
        if f >= 0 {
            f
        } else if partitioner.spec_transformed_hash(input[k - 1]) == th && partition_of(partitioner, input[k - 1]) == t {
            k - 1
        } else {
            -1
        }
    }
}

proof fn lemma_routed(partitioner: LocalTablePartitioner, input: Seq<u64>, k: int, th: u64, t: int)
    requires
        0 <= k <= input.len(),
    ensures
        (last_routed(partitioner, input, k, th, t) >= 0) == (first_routed(partitioner, input, k, th, t) >= 0),
        last_routed(partitioner, input, k, th, t) < k,
        first_routed(partitioner, input, k, th, t) < k,
        first_routed(partitioner, input, k, th, t) <= last_routed(partitioner, input, k, th, t),
        first_routed(partitioner, input, k, th, t) >= 0 ==> {
            let f = first_routed(partitioner, input, k, th, t);
            &&& partitioner.spec_transformed_hash(input[f]) == th
            &&& partition_of(partitioner, input[f]) == t
        },
        last_routed(partitioner, input, k, th, t) >= 0 ==> {
            let l = last_routed(partitioner, input, k, th, t);
            &&& partitioner.spec_transformed_hash(input[l]) == th
            &&& partition_of(partitioner, input[l]) == t
        },
    decreases k,
{
    if k > 0 {
        lemma_routed(partitioner, input, k - 1, th, t);
    }
}

/// Table `t` after the first `k` values of `input`, given at `offset`, went
/// into the tables, when its entries were `before`.
pub open spec fn accumulated_local_entries(
    before: Map<u64, LocalEntry>,
    t: int,
    partitioner: LocalTablePartitioner,
    offset: Offset,
    input: Seq<u64>,
    k: int,
) -> Map<u64, LocalEntry> {
    Map::new(
        |th: u64| before.contains_key(th) || last_routed(partitioner, input, k, th, t) >= 0,
        |th: u64| {
            let last = last_routed(partitioner, input, k, th, t);
            let first = first_routed(partitioner, input, k, th, t);
            let global_index = (offset.size + last + 1) as usize;
            if last < 0 {
                before[th]
            } else if before.contains_key(th) {
                LocalEntry { global_index, ..before[th] }
            } else {
                LocalEntry {
                    transformed_hash: th,
                    hash: input[first],
                    global_index,
                    end_of_chain: (offset.size + first + 1) as usize,
                }
            }
        },
    )
}

/// A table that went through part of an input stays finite.
proof fn lemma_accumulated_finite(before: Map<u64, LocalEntry>, t: int, partitioner: LocalTablePartitioner, offset: Offset,
    input: Seq<u64>, k: int)
    requires
        before.dom().finite(),
        0 <= k <= input.len(),
    ensures
        accumulated_local_entries(before, t, partitioner, offset, input, k).dom().finite(),
{
    let after = accumulated_local_entries(before, t, partitioner, offset, input, k);
    let transformed = input.map_values(|h: u64| partitioner.spec_transformed_hash(h));
    vstd::seq_lib::seq_to_set_is_finite(transformed);
    assert forall|th: u64| after.dom().contains(th) implies #[trigger] before.dom().union(transformed.to_set()).contains(th) by {
        if !before.contains_key(th) {
            lemma_routed(partitioner, input, k, th, t);
            let l = last_routed(partitioner, input, k, th, t);
            assert(transformed[l] == th);
        }
    }
    vstd::set_lib::lemma_len_subset(after.dom(), before.dom().union(transformed.to_set()));
}

/// What the overflow buffer holds at `k` after `input` went into the
/// tables: the insertion index of the previous value with the same
/// transformed hash in the same table, else the latest index that table
/// held for it, else what the buffer held.
pub open spec fn local_overflow_of(
    tables: Seq<LocalTable>,
    overflow: Seq<usize>,
    partitioner: LocalTablePartitioner,
    offset: Offset,
    input: Seq<u64>,
    k: int,
) -> usize {
    let th = partitioner.spec_transformed_hash(input[k]);
    let t = partition_of(partitioner, input[k]) as int;
    let previous = last_routed(partitioner, input, k, th, t);
    let before = local_table_entries(tables[t]);
    if previous >= 0 {
        (offset.size + previous + 1) as usize
    } else if before.contains_key(th) {
        before[th].global_index
    } else {
        overflow[k]
    }
}

/// Adds the hashes of `input`, placed at `global_offset`, to the local
/// tables of their partitions. The value at position `i` gets the insertion
/// index `global_offset.size + i + 1`. A transformed hash new to its table
/// gets an entry whose chain ends at this value; one the table holds keeps
/// its entry, whose index moves to this value, and the index it held goes
/// to `overflow[i]`.
pub fn locally_accumulate_input(
    global_offset: Offset,
    input: Vec<u64>,
    partitioner: &LocalTablePartitioner,
    tables: &mut Vec<LocalTable>,
    overflow: &mut Vec<usize>,
)
    requires
        partitioner.wf(),
        power_of_two(partitioner.partitions()),
        old(tables)@.len() == partitioner.partitions(),
        old(overflow)@.len() >= input@.len(),
        global_offset.size + input@.len() + 1 <= usize::MAX,
    ensures
        final(tables)@.len() == old(tables)@.len(),
        forall|t: int| 0 <= t < old(tables)@.len() ==> local_table_entries(#[trigger] final(tables)@[t])
            == accumulated_local_entries(local_table_entries(old(tables)@[t]), t, *partitioner, global_offset, input@,
                input@.len() as int),
        final(overflow)@.len() == old(overflow)@.len(),
        forall|k: int| 0 <= k < input@.len() ==> #[trigger] final(overflow)@[k] == local_overflow_of(
            old(tables)@, old(overflow)@, *partitioner, global_offset, input@, k),
        forall|k: int| input@.len() <= k < old(overflow)@.len() ==> #[trigger] final(overflow)@[k] == old(overflow)@[k],
        forall|t: int| 0 <= t < old(tables)@.len() && local_table_entries(old(tables)@[t]).dom().finite()
            ==> local_table_entries(#[trigger] final(tables)@[t]).dom().finite(),
{
    let ghost start = tables@;
    let ghost start_overflow = overflow@;
    let ghost p = *partitioner;
    let mut local_index: usize = 0;
    while local_index < input.len()
        invariant
            p == *partitioner,
            partitioner.wf(),
            power_of_two(partitioner.partitions()),
            start.len() == partitioner.partitions(),
            tables@.len() == start.len(),
            overflow@.len() == start_overflow.len(),
            start_overflow.len() >= input@.len(),
            global_offset.size + input@.len() + 1 <= usize::MAX,
            local_index <= input@.len(),
            forall|j: int| 0 <= j < local_index ==> partitioner.is_partition_of(input@[j], #[trigger] partition_of(p, input@[j])),
            forall|t: int| 0 <= t < start.len() ==> local_table_entries(#[trigger] tables@[t])
                == accumulated_local_entries(local_table_entries(start[t]), t, p, global_offset, input@, local_index as int),
            forall|k: int| 0 <= k < local_index ==> #[trigger] overflow@[k] == local_overflow_of(
                start, start_overflow, p, global_offset, input@, k),
            forall|k: int| local_index <= k < overflow@.len() ==> #[trigger] overflow@[k] == start_overflow[k],
        decreases input@.len() - local_index,
    {
        let hash = input[local_index];
        let transformed_hash = partitioner.get_transformed_hash(hash);
        let insertion_index = get_insertion_index(global_offset.size, local_index);
        let table_index = partitioner.get_local_table_partition(hash);
        let ghost k = local_index as int;
        let ghost ti = table_index as int;
        proof {
            partitioner.lemma_partition_unique(hash, table_index, partition_of(p, hash));
        }
        let ghost before = tables@;
        let previous = local_table_replace_global_index(&mut tables[table_index], transformed_hash, insertion_index);
        match previous {
            Some(previous) => {
                overflow.set(local_index, previous);
            },
            None => {
                local_table_insert(&mut tables[table_index], LocalEntry {
                    transformed_hash,
                    hash,
                    global_index: insertion_index,
                    end_of_chain: insertion_index,
                });
            },
        }
        proof {
            assert forall|j: int| 0 <= j < k + 1 implies partitioner.is_partition_of(input@[j], #[trigger] partition_of(p, input@[j])) by {
                if j == k {
                    assert(input@[j] == hash);
                }
            }
            assert forall|t: int| 0 <= t < start.len() implies local_table_entries(#[trigger] tables@[t])
                == accumulated_local_entries(local_table_entries(start[t]), t, p, global_offset, input@, k + 1) by {
                let old_map = accumulated_local_entries(local_table_entries(start[t]), t, p, global_offset, input@, k);
                let new_map = accumulated_local_entries(local_table_entries(start[t]), t, p, global_offset, input@, k + 1);
                assert(local_table_entries(before[t]) == old_map);
                assert forall|th: u64| th != transformed_hash || t != ti implies
                    last_routed(p, input@, k + 1, th, t) == last_routed(p, input@, k, th, t)
                    && first_routed(p, input@, k + 1, th, t) == first_routed(p, input@, k, th, t) by {
                    lemma_routed(p, input@, k, th, t);
                }
                lemma_routed(p, input@, k, transformed_hash, t);
                lemma_routed(p, input@, k + 1, transformed_hash, t);
                if t == ti {
                    assert(local_table_entries(tables@[t]) =~= new_map);
                } else {
                    assert(tables@[t] == before[t]);
                    assert(local_table_entries(tables@[t]) =~= new_map);
                }
            }
            assert forall|j: int| 0 <= j < k + 1 implies #[trigger] overflow@[j] == local_overflow_of(
                start, start_overflow, p, global_offset, input@, j) by {
                if j == k {
                    let old_map = accumulated_local_entries(local_table_entries(start[ti]), ti, p, global_offset, input@, k);
                    assert(local_table_entries(before[ti]) == old_map);
                    lemma_routed(p, input@, k, transformed_hash, ti);
                }
            }
        }
        local_index += 1;
    }
    proof {
        assert forall|t: int| 0 <= t < start.len() && local_table_entries(start[t]).dom().finite()
            implies local_table_entries(#[trigger] tables@[t]).dom().finite() by {
            lemma_accumulated_finite(local_table_entries(start[t]), t, p, global_offset, input@, input@.len() as int);
        }
    }
}

/// The overflow buffer of one input, with its place in the global order.
#[derive(Debug, Clone, PartialEq)]
pub struct OrderedOverflowBuffer {
    pub global_index: usize,
    pub global_offset: usize,
    pub buffer: Vec<usize>,
}

/// `shared` after the first `n` of `buffers` were copied into it, each to
/// the positions from one past its global offset.
pub open spec fn copied_overflow(buffers: Seq<OrderedOverflowBuffer>, n: int, shared: Seq<usize>) -> Seq<usize>
    decreases n,
{
    if n <= 0 {
        shared
    } else {
        let before = copied_overflow(buffers, n - 1, shared);
        let b = buffers[n - 1];
        Seq::new(before.len(), |q: int|
            if b.global_offset + 1 <= q < b.global_offset + 1 + b.buffer@.len() {
                b.buffer@[q - b.global_offset - 1]
            } else {
                before[q]
            })
    }
}

proof fn lemma_copied_len(buffers: Seq<OrderedOverflowBuffer>, n: int, shared: Seq<usize>)
    ensures
        copied_overflow(buffers, n, shared).len() == shared.len(),
    decreases n,
{
    if n > 0 {
        lemma_copied_len(buffers, n - 1, shared);
    }
}

/// Copies every local overflow buffer into the shared one, starting one
/// past its global offset; position 0 of the shared buffer, which ends
/// every chain, is left alone.
pub fn write_local_overflow_buffers_to_global_buffer(
    local_overflow_buffers: Vec<OrderedOverflowBuffer>,
    mutable_shared_overflow_buffer: &mut Vec<usize>,
)
    requires
        forall|i: int| 0 <= i < local_overflow_buffers@.len() ==> (#[trigger] local_overflow_buffers@[i]).global_offset + 1
            + local_overflow_buffers@[i].buffer@.len() <= old(mutable_shared_overflow_buffer)@.len(),
    ensures
        final(mutable_shared_overflow_buffer)@ == copied_overflow(
            local_overflow_buffers@, local_overflow_buffers@.len() as int, old(mutable_shared_overflow_buffer)@),
{
    let ghost shared = mutable_shared_overflow_buffer@;
    assert(shared.len() == mutable_shared_overflow_buffer.len());
    let mut i: usize = 0;
    while i < local_overflow_buffers.len()
        invariant
            i <= local_overflow_buffers@.len(),
            forall|j: int| 0 <= j < local_overflow_buffers@.len() ==> (#[trigger] local_overflow_buffers@[j]).global_offset + 1
                + local_overflow_buffers@[j].buffer@.len() <= shared.len(),
            mutable_shared_overflow_buffer@ == copied_overflow(local_overflow_buffers@, i as int, shared),
            shared.len() <= usize::MAX,
        decreases local_overflow_buffers@.len() - i,
    {
        let b = &local_overflow_buffers[i];
        proof {
            assert(local_overflow_buffers@[i as int].global_offset + 1 + local_overflow_buffers@[i as int].buffer@.len()
                <= shared.len());
            lemma_copied_len(local_overflow_buffers@, i as int, shared);
        }
        let start = b.global_offset + 1;
        let ghost before = mutable_shared_overflow_buffer@;
        proof {
            lemma_copied_len(local_overflow_buffers@, i as int, shared);
        }
        let mut q: usize = 0;
        while q < b.buffer.len()
            invariant
                start == b.global_offset + 1,
                start + b.buffer@.len() <= before.len(),
                before.len() <= usize::MAX,
                mutable_shared_overflow_buffer@.len() == before.len(),
                q <= b.buffer@.len(),
                forall|x: int| 0 <= x < before.len() ==> #[trigger] mutable_shared_overflow_buffer@[x]
                    == if start <= x < start + q { b.buffer@[x - start] } else { before[x] },
            decreases b.buffer@.len() - q,
        {
            mutable_shared_overflow_buffer.set(start + q, b.buffer[q]);
            q += 1;
        }
        proof {
            assert(mutable_shared_overflow_buffer@ =~= copied_overflow(local_overflow_buffers@, i + 1, shared));
        }
        i += 1;
    }
}

/// The entries of partition `pi` in the tables of each thread, by thread.
pub open spec fn partition_tables(all: Seq<Arc<Vec<LocalTable>>>, pi: int) -> Seq<Map<u64, LocalEntry>> {
    Seq::new(all.len(), |i: int| local_table_entries(all[i]@[pi]))
}

/// `before` with the entries of `table` under the transformed hashes in
/// `keys` merged in: a new transformed hash takes the table's entry; one
/// that `before` holds keeps its entry, with the table's global index.
pub open spec fn merge_entries_over(before: Map<u64, LocalEntry>, table: Map<u64, LocalEntry>, keys: Set<u64>) -> Map<u64, LocalEntry> {
    Map::new(
        |th: u64| before.contains_key(th) || (keys.contains(th) && table.contains_key(th)),
        |th: u64|
            if keys.contains(th) && table.contains_key(th) {
                if before.contains_key(th) {
                    LocalEntry { global_index: table[th].global_index, ..before[th] }
                } else {
                    table[th]
                }
            } else {
                before[th]
            },
    )
}

/// `before` with all the entries of `table` merged in.
pub open spec fn merge_entries(before: Map<u64, LocalEntry>, table: Map<u64, LocalEntry>) -> Map<u64, LocalEntry> {
    merge_entries_over(before, table, table.dom())
}

/// The first `i + 1` of `tables` merged in order.
pub open spec fn merged_upto(tables: Seq<Map<u64, LocalEntry>>, i: int) -> Map<u64, LocalEntry>
    decreases i,
{
    if i <= 0 {
        tables[0]
    } else {
        merge_entries(merged_upto(tables, i - 1), tables[i])
    }
}

/// The number of transformed hashes in `m` whose entry's hash falls in
/// partition `b`.
pub open spec fn keys_in_partition(m: Map<u64, LocalEntry>, partitioner: LocalTablePartitioner, b: int) -> nat {
    m.dom().filter(|th: u64| partition_of(partitioner, m[th].hash) == b).len()
}

/// Merging a table writes `m[th].global_index` at position `q` of the
/// overflow buffer: `th` is in both, and its entry in the table ends its
/// chain at `q`.
pub open spec fn writes_overflow_at(m: Map<u64, LocalEntry>, table: Map<u64, LocalEntry>, th: u64, q: int) -> bool {
    &&& m.contains_key(th)
    &&& table.contains_key(th)
    &&& table[th].end_of_chain == q
}

proof fn lemma_count_insert_new(m: Map<u64, LocalEntry>, th: u64, e: LocalEntry, p: LocalTablePartitioner, b: int)
    requires
        m.dom().finite(),
        !m.contains_key(th),
    ensures
        m.insert(th, e).dom().finite(),
        keys_in_partition(m.insert(th, e), p, b) == keys_in_partition(m, p, b)
            + if partition_of(p, e.hash) == b { 1nat } else { 0nat },
{
    let m2 = m.insert(th, e);
    let f = |x: u64| partition_of(p, m[x].hash) == b;
    let f2 = |x: u64| partition_of(p, m2[x].hash) == b;
    m.dom().lemma_len_filter(f);
    if partition_of(p, e.hash) == b {
        assert(m2.dom().filter(f2) =~= m.dom().filter(f).insert(th));
    } else {
        assert(m2.dom().filter(f2) =~= m.dom().filter(f));
    }
}

proof fn lemma_count_update(m: Map<u64, LocalEntry>, th: u64, e: LocalEntry, p: LocalTablePartitioner, b: int)
    requires
        m.contains_key(th),
        e.hash == m[th].hash,
    ensures
        m.insert(th, e).dom() == m.dom(),
        keys_in_partition(m.insert(th, e), p, b) == keys_in_partition(m, p, b),
{
    let m2 = m.insert(th, e);
    let f = |x: u64| partition_of(p, m[x].hash) == b;
    let f2 = |x: u64| partition_of(p, m2[x].hash) == b;
    assert(m2.dom() =~= m.dom());
    assert(m2.dom().filter(f2) =~= m.dom().filter(f));
}

/// Adds to each count the number of listed entries whose hash falls in its
/// partition.
fn count_entries(partitioner: &LocalTablePartitioner, entries: &Vec<LocalEntry>, Ghost(table): Ghost<Map<u64, LocalEntry>>,
    counts: &mut Vec<usize>)
    requires
        partitioner.wf(),
        power_of_two(partitioner.partitions()),
        old(counts)@.len() == partitioner.partitions(),
        enumerates(entries@, table),
        forall|b: int| 0 <= b < old(counts)@.len() ==> #[trigger] old(counts)@[b] + keys_in_partition(table, *partitioner, b) <= usize::MAX,
    ensures
        final(counts)@.len() == old(counts)@.len(),
        table.dom().finite(),
        forall|b: int| 0 <= b < old(counts)@.len() ==> #[trigger] final(counts)@[b] == old(counts)@[b]
            + keys_in_partition(table, *partitioner, b),
{
    let ghost p = *partitioner;
    let ghost start = counts@;
    let ghost keys = entry_keys(entries@);
    let mut c: usize = 0;
    proof {
        vstd::seq_lib::seq_to_set_is_finite(keys);
        assert(keys.take(0).to_set() =~= Set::<u64>::empty());
        assert forall|b: int| 0 <= b < start.len() implies #[trigger] counts@[b] == start[b]
            + keys_in_partition(table.restrict(keys.take(0).to_set()), p, b) by {
            let m = table.restrict(keys.take(0).to_set());
            assert(m.dom() =~= Set::<u64>::empty());
            let f = |x: u64| partition_of(p, m[x].hash) == b;
            assert(m.dom().filter(f) =~= Set::<u64>::empty());
        }
    }
    while c < entries.len()
        invariant
            p == *partitioner,
            partitioner.wf(),
            power_of_two(partitioner.partitions()),
            counts@.len() == start.len(),
            start.len() == partitioner.partitions(),
            keys == entry_keys(entries@),
            enumerates(entries@, table),
            table.dom().finite(),
            c <= entries@.len(),
            forall|b: int| 0 <= b < start.len() ==> #[trigger] start[b] + keys_in_partition(table, p, b) <= usize::MAX,
            forall|b: int| 0 <= b < start.len() ==> #[trigger] counts@[b] == start[b]
                + keys_in_partition(table.restrict(keys.take(c as int).to_set()), p, b),
        decreases entries@.len() - c,
    {
        let e = entries[c];
        let counter_index = partitioner.get_local_table_partition(e.hash);
        proof {
            p.lemma_partition_unique(e.hash, counter_index, partition_of(p, e.hash));
            let done = table.restrict(keys.take(c as int).to_set());
            let next = table.restrict(keys.take(c + 1).to_set());
            assert(keys.take(c + 1) =~= keys.take(c as int).push(e.transformed_hash));
            assert(!keys.take(c as int).contains(e.transformed_hash)) by {
                if keys.take(c as int).contains(e.transformed_hash) {
                    let j = choose|j: int| 0 <= j < c && keys.take(c as int)[j] == e.transformed_hash;
                    assert(keys[j] == keys[c as int]);
                }
            }
            assert(e == entries@[c as int]);
            assert(keys[c as int] == e.transformed_hash);
            assert(table[entries@[c as int].transformed_hash] == entries@[c as int]);
            assert(keys.contains(e.transformed_hash));
            assert(keys.take(c + 1).to_set() =~= keys.take(c as int).to_set().insert(e.transformed_hash)) by {
                let s0 = keys.take(c as int);
                let s1 = keys.take(c + 1);
                assert forall|x: u64| s1.contains(x) implies s0.contains(x) || x == e.transformed_hash by {
                    let j = choose|j: int| 0 <= j < s1.len() && s1[j] == x;
                    if j < c {
                        assert(s0[j] == x);
                    }
                }
                assert forall|x: u64| s0.contains(x) implies s1.contains(x) by {
                    let j = choose|j: int| 0 <= j < s0.len() && s0[j] == x;
                    assert(s1[j] == x);
                }
                assert(s1[c as int] == e.transformed_hash);
            }
            assert(next =~= done.insert(e.transformed_hash, e));
            assert(done.dom() =~= keys.take(c as int).to_set()) by {
                assert forall|th: u64| keys.take(c as int).to_set().contains(th) implies table.dom().contains(th) by {
                    let j = choose|j: int| 0 <= j < c && keys.take(c as int)[j] == th;
                    assert(keys.contains(th));
                }
            }
            vstd::seq_lib::seq_to_set_is_finite(keys.take(c as int));
            assert forall|b: int| 0 <= b < start.len() implies #[trigger] keys_in_partition(next, p, b) == keys_in_partition(done, p, b)
                + if partition_of(p, e.hash) == b { 1nat } else { 0nat } by {
                lemma_count_insert_new(done, e.transformed_hash, e, p, b);
            }
            assert(keys_in_partition(next, p, counter_index as int) <= keys_in_partition(table, p, counter_index as int)) by {
                let f = |x: u64| partition_of(p, table[x].hash) == counter_index as int;
                let g = |x: u64| partition_of(p, next[x].hash) == counter_index as int;
                assert(next.dom().filter(g).subset_of(table.dom().filter(f)));
                table.dom().lemma_len_filter(f);
                vstd::set_lib::lemma_len_subset(next.dom().filter(g), table.dom().filter(f));
            }
        }
        counts.set(counter_index, counts[counter_index] + 1);
        c += 1;
    }
    proof {
        assert(keys.take(entries@.len() as int) =~= keys);
        assert(table.restrict(keys.to_set()) =~= table);
    }
}

proof fn lemma_merge_count_bound(m: Map<u64, LocalEntry>, table: Map<u64, LocalEntry>, keys: Set<u64>,
    p: LocalTablePartitioner, b: int)
    requires
        m.dom().finite(),
        table.dom().finite(),
    ensures
        merge_entries_over(m, table, keys).dom().finite(),
        keys_in_partition(merge_entries_over(m, table, keys), p, b) <= keys_in_partition(merge_entries(m, table), p, b),
        keys_in_partition(m, p, b) <= keys_in_partition(merge_entries_over(m, table, keys), p, b),
{
    let part = merge_entries_over(m, table, keys);
    let full = merge_entries(m, table);
    assert(part.dom().subset_of(m.dom().union(table.dom())));
    assert(full.dom() =~= m.dom().union(table.dom()));
    vstd::set_lib::lemma_len_subset(part.dom(), m.dom().union(table.dom()));
    let fp = |x: u64| partition_of(p, part[x].hash) == b;
    let ff = |x: u64| partition_of(p, full[x].hash) == b;
    let fm = |x: u64| partition_of(p, m[x].hash) == b;
    assert(part.dom().filter(fp).subset_of(full.dom().filter(ff)));
    full.dom().lemma_len_filter(ff);
    vstd::set_lib::lemma_len_subset(part.dom().filter(fp), full.dom().filter(ff));
    assert(m.dom().filter(fm).subset_of(part.dom().filter(fp)));
    part.dom().lemma_len_filter(fp);
    vstd::set_lib::lemma_len_subset(m.dom().filter(fm), part.dom().filter(fp));
}

/// Merges the listed entries of `table` into `merged`. A transformed hash
/// new to `merged` takes the listed entry and adds one to the count of its
/// hash's partition; one that `merged` holds takes the listed global index,
/// and the index it held goes to the overflow buffer at the listed end of
/// chain.
fn merge_table_into(partitioner: &LocalTablePartitioner, merged: &mut LocalTable, entries: &Vec<LocalEntry>,
    Ghost(table): Ghost<Map<u64, LocalEntry>>, overflow: &mut Vec<usize>, counts: &mut Vec<usize>)
    requires
        partitioner.wf(),
        power_of_two(partitioner.partitions()),
        old(counts)@.len() == partitioner.partitions(),
        enumerates(entries@, table),
        local_table_entries(*old(merged)).dom().finite(),
        forall|th: u64| local_table_entries(*old(merged)).contains_key(th) && #[trigger] table.contains_key(th)
            ==> table[th].end_of_chain < old(overflow)@.len(),
        forall|b: int| 0 <= b < old(counts)@.len() ==> #[trigger] old(counts)@[b]
            + keys_in_partition(merge_entries(local_table_entries(*old(merged)), table), *partitioner, b)
            - keys_in_partition(local_table_entries(*old(merged)), *partitioner, b) <= usize::MAX,
    ensures
        local_table_entries(*final(merged)) == merge_entries(local_table_entries(*old(merged)), table),
        local_table_entries(*final(merged)).dom().finite(),
        final(counts)@.len() == old(counts)@.len(),
        forall|b: int| 0 <= b < old(counts)@.len() ==> #[trigger] final(counts)@[b] == old(counts)@[b]
            + keys_in_partition(merge_entries(local_table_entries(*old(merged)), table), *partitioner, b)
            - keys_in_partition(local_table_entries(*old(merged)), *partitioner, b),
        final(overflow)@.len() == old(overflow)@.len(),
        forall|q: int| 0 <= q < old(overflow)@.len()
            && (forall|th: u64| !#[trigger] writes_overflow_at(local_table_entries(*old(merged)), table, th, q))
            ==> final(overflow)@[q] == old(overflow)@[q],
        forall|q: int, th0: u64| 0 <= q < old(overflow)@.len()
            && #[trigger] writes_overflow_at(local_table_entries(*old(merged)), table, th0, q)
            ==> exists|th: u64| #[trigger] writes_overflow_at(local_table_entries(*old(merged)), table, th, q)
                && final(overflow)@[q] == local_table_entries(*old(merged))[th].global_index,
{
    let ghost p = *partitioner;
    let ghost m = local_table_entries(*merged);
    let ghost start_counts = counts@;
    let ghost start_overflow = overflow@;
    let ghost keys = entry_keys(entries@);
    proof {
        vstd::seq_lib::seq_to_set_is_finite(keys);
        assert(keys.take(0).to_set() =~= Set::<u64>::empty());
        assert(merge_entries_over(m, table, keys.take(0).to_set()) =~= m);
    }
    let mut c: usize = 0;
    while c < entries.len()
        invariant
            p == *partitioner,
            partitioner.wf(),
            power_of_two(partitioner.partitions()),
            start_counts.len() == partitioner.partitions(),
            counts@.len() == start_counts.len(),
            overflow@.len() == start_overflow.len(),
            keys == entry_keys(entries@),
            enumerates(entries@, table),
            table.dom().finite(),
            m.dom().finite(),
            c <= entries@.len(),
            forall|th: u64| m.contains_key(th) && #[trigger] table.contains_key(th) ==> table[th].end_of_chain < start_overflow.len(),
            forall|b: int| 0 <= b < start_counts.len() ==> #[trigger] start_counts[b]
                + keys_in_partition(merge_entries(m, table), p, b) - keys_in_partition(m, p, b) <= usize::MAX,
            local_table_entries(*merged) == merge_entries_over(m, table, keys.take(c as int).to_set()),
            forall|b: int| 0 <= b < start_counts.len() ==> #[trigger] counts@[b] == start_counts[b]
                + keys_in_partition(merge_entries_over(m, table, keys.take(c as int).to_set()), p, b)
                - keys_in_partition(m, p, b),
            forall|q: int| 0 <= q < start_overflow.len()
                && (forall|th: u64| keys.take(c as int).contains(th) ==> !#[trigger] writes_overflow_at(m, table, th, q))
                ==> overflow@[q] == start_overflow[q],
            forall|q: int, th0: u64| 0 <= q < start_overflow.len() && keys.take(c as int).contains(th0)
                && #[trigger] writes_overflow_at(m, table, th0, q)
                ==> exists|th: u64| #[trigger] writes_overflow_at(m, table, th, q)
                    && overflow@[q] == m[th].global_index,
        decreases entries@.len() - c,
    {
        let e = entries[c];
        let th = e.transformed_hash;
        let ghost done = keys.take(c as int).to_set();
        let ghost part = merge_entries_over(m, table, done);
        proof {
            assert(e == entries@[c as int]);
            assert(keys[c as int] == th);
            assert(table[entries@[c as int].transformed_hash] == entries@[c as int]);
            assert(keys.contains(th));
            assert(table.contains_key(th));
            assert(!keys.take(c as int).contains(th)) by {
                if keys.take(c as int).contains(th) {
                    let j = choose|j: int| 0 <= j < c && keys.take(c as int)[j] == th;
                    assert(keys[j] == keys[c as int]);
                }
            }
            assert(keys.take(c + 1).to_set() =~= done.insert(th)) by {
                let s0 = keys.take(c as int);
                let s1 = keys.take(c + 1);
                assert forall|x: u64| s1.contains(x) implies s0.contains(x) || x == th by {
                    let j = choose|j: int| 0 <= j < s1.len() && s1[j] == x;
                    if j < c {
                        assert(s0[j] == x);
                    }
                }
                assert forall|x: u64| s0.contains(x) implies s1.contains(x) by {
                    let j = choose|j: int| 0 <= j < s0.len() && s0[j] == x;
                    assert(s1[j] == x);
                }
                assert(s1[c as int] == th);
            }
            vstd::seq_lib::seq_to_set_is_finite(keys.take(c as int));
            lemma_merge_count_bound(m, table, done, p, 0);
        }
        let previous = local_table_replace_global_index(merged, th, e.global_index);
        match previous {
            Some(existing) => {
                proof {
                    assert(m.contains_key(th));
                    assert(writes_overflow_at(m, table, th, e.end_of_chain as int));
                }
                overflow.set(e.end_of_chain, existing);
                proof {
                    let next = merge_entries_over(m, table, keys.take(c + 1).to_set());
                    assert(local_table_entries(*merged) =~= next);
                    assert forall|b: int| 0 <= b < start_counts.len() implies #[trigger] counts@[b] == start_counts[b]
                        + keys_in_partition(next, p, b) - keys_in_partition(m, p, b) by {
                        lemma_count_update(part, th, LocalEntry { global_index: e.global_index, ..part[th] }, p, b);
                    }
                }
            },
            None => {
                proof {
                    assert(!m.contains_key(th));
                    lemma_merge_count_bound(m, table, done, p, 0);
                }
                let counter_index = partitioner.get_local_table_partition(e.hash);
                proof {
                    p.lemma_partition_unique(e.hash, counter_index, partition_of(p, e.hash));
                    let next = merge_entries_over(m, table, keys.take(c + 1).to_set());
                    assert(next =~= part.insert(th, e));
                    lemma_count_insert_new(part, th, e, p, counter_index as int);
                    lemma_merge_count_bound(m, table, keys.take(c + 1).to_set(), p, counter_index as int);
                }
                local_table_insert(merged, e);
                counts.set(counter_index, counts[counter_index] + 1);
                proof {
                    let next = merge_entries_over(m, table, keys.take(c + 1).to_set());
                    assert(local_table_entries(*merged) =~= next);
                    assert forall|b: int| 0 <= b < start_counts.len() implies #[trigger] counts@[b] == start_counts[b]
                        + keys_in_partition(next, p, b) - keys_in_partition(m, p, b) by {
                        lemma_count_insert_new(part, th, e, p, b);
                    }
                }
            },
        }
        proof {
            let s1 = keys.take(c + 1);
            assert forall|x: u64| s1.contains(x) <==> (keys.take(c as int).contains(x) || x == th) by {
                if s1.contains(x) {
                    let j = choose|j: int| 0 <= j < s1.len() && s1[j] == x;
                    if j < c {
                        assert(keys.take(c as int)[j] == x);
                    }
                }
                if keys.take(c as int).contains(x) {
                    let j = choose|j: int| 0 <= j < c && keys.take(c as int)[j] == x;
                    assert(s1[j] == x);
                }
                if x == th {
                    assert(s1[c as int] == x);
                }
            }
        }
        c += 1;
    }
    proof {
        assert(keys.take(entries@.len() as int) =~= keys);
        assert(keys.to_set() =~= table.dom());
        lemma_merge_count_bound(m, table, table.dom(), p, 0);
    }
}

/// The number of transformed hashes whose hash falls in partition `b`, over
/// the merged tables of partitions `low` up to `x`.
pub open spec fn owned_keys_in_partition(all: Seq<Arc<Vec<LocalTable>>>, partitioner: LocalTablePartitioner, low: int,
    x: int, b: int) -> nat
    decreases x - low,
{
    if x <= low {
        0
    } else {
        owned_keys_in_partition(all, partitioner, low, x - 1, b)
            + keys_in_partition(merged_upto(partition_tables(all, x - 1), all.len() - 1), partitioner, b)
    }
}

/// Merging table `i` of the owned partition `pi` writes the global index of
/// `th` at position `q` of the overflow buffer.
pub open spec fn overflow_writer(all: Seq<Arc<Vec<LocalTable>>>, low: int, high: int, pi: int, i: int, th: u64, q: int) -> bool {
    &&& low <= pi < high
    &&& 1 <= i < all.len()
    &&& writes_overflow_at(merged_upto(partition_tables(all, pi), i - 1), partition_tables(all, pi)[i], th, q)
}

/// The global index that such a write puts there.
pub open spec fn overflow_written(all: Seq<Arc<Vec<LocalTable>>>, pi: int, i: int, th: u64) -> usize {
    merged_upto(partition_tables(all, pi), i - 1)[th].global_index
}

/// Merging more tables keeps every count at least as large.
proof fn lemma_merged_count_grows(tables: Seq<Map<u64, LocalEntry>>, i: int, j: int, p: LocalTablePartitioner, b: int)
    requires
        0 <= i <= j < tables.len(),
        forall|k: int| 0 <= k < tables.len() ==> (#[trigger] tables[k]).dom().finite(),
    ensures
        merged_upto(tables, j).dom().finite(),
        keys_in_partition(merged_upto(tables, i), p, b) <= keys_in_partition(merged_upto(tables, j), p, b),
    decreases j,
{
    if j > 0 {
        lemma_merged_count_grows(tables, if i < j { i } else { j - 1 }, j - 1, p, b);
        lemma_merge_count_bound(merged_upto(tables, j - 1), tables[j], tables[j].dom(), p, b);
    }
}

proof fn lemma_owned_count_grows(all: Seq<Arc<Vec<LocalTable>>>, p: LocalTablePartitioner, low: int, x: int, y: int, b: int)
    requires
        low <= x <= y,
    ensures
        owned_keys_in_partition(all, p, low, x, b) <= owned_keys_in_partition(all, p, low, y, b),
    decreases y - x,
{
    if x < y {
        lemma_owned_count_grows(all, p, low, x, y - 1, b);
    }
}

/// Merges, for each partition that thread `thread_index` of `parallelism`
/// owns among `local_bucket_count`, the tables of that partition from every
/// thread, in thread order. The first thread's table is copied; each later
/// one is merged in: a new transformed hash takes that table's entry, and
/// one already there takes that table's global index, the index it held
/// going to the overflow buffer at that table's end of chain. Every
/// transformed hash new to a merged table adds one to the count of the
/// partition, among as many as there are counts, of its entry's hash.
/// Where several writes hit one overflow position, the last table's write
/// stays; among writes of one table, any one may.
pub fn merge_owned_partitions_and_update_counts(
    parallelism: usize,
    thread_index: usize,
    local_bucket_count: usize,
    all_tables: Vec<Arc<Vec<LocalTable>>>,
    shared_overflow_buffer: &mut Vec<usize>,
    shared_bucket_counts: &mut Vec<usize>,
) -> (r: Vec<LocalTable>)
    requires
        old(shared_bucket_counts)@.len() > 1,
        ((old(shared_bucket_counts)@.len() - 1) as usize) >> ((usize::BITS - 7) as usize) == 0,
        power_of_two(old(shared_bucket_counts)@.len() as int),
        parallelism > 0,
        owned_end(local_bucket_count as int, parallelism as int, thread_index as int) <= usize::MAX,
        all_tables@.len() >= 1,
        forall|i: int| 0 <= i < all_tables@.len() ==> (#[trigger] all_tables@[i])@.len()
            >= owned_end(local_bucket_count as int, parallelism as int, thread_index as int),
        forall|i: int, pi: int| 0 <= i < all_tables@.len()
            && owned_start(local_bucket_count as int, parallelism as int, thread_index as int) <= pi
            < owned_end(local_bucket_count as int, parallelism as int, thread_index as int)
            ==> local_table_entries(#[trigger] all_tables@[i]@[pi]).dom().finite(),
        forall|pi: int, i: int, th: u64, q: int| #[trigger] overflow_writer(all_tables@,
            owned_start(local_bucket_count as int, parallelism as int, thread_index as int),
            owned_end(local_bucket_count as int, parallelism as int, thread_index as int), pi, i, th, q)
            ==> q < old(shared_overflow_buffer)@.len(),
        forall|b: int| 0 <= b < old(shared_bucket_counts)@.len() ==> #[trigger] old(shared_bucket_counts)@[b]
            + owned_keys_in_partition(all_tables@, LocalTablePartitioner::of_partitions(old(shared_bucket_counts)@.len() as int),
                owned_start(local_bucket_count as int, parallelism as int, thread_index as int),
                owned_end(local_bucket_count as int, parallelism as int, thread_index as int), b) <= usize::MAX,
    ensures
        ({
            let low = owned_start(local_bucket_count as int, parallelism as int, thread_index as int);
            let high = owned_end(local_bucket_count as int, parallelism as int, thread_index as int);
            let p = LocalTablePartitioner::of_partitions(old(shared_bucket_counts)@.len() as int);
            &&& r@.len() == high - low
            &&& forall|k: int| 0 <= k < high - low ==> local_table_entries(#[trigger] r@[k])
                == merged_upto(partition_tables(all_tables@, low + k), all_tables@.len() - 1)
            &&& final(shared_bucket_counts)@.len() == old(shared_bucket_counts)@.len()
            &&& forall|b: int| 0 <= b < old(shared_bucket_counts)@.len() ==> #[trigger] final(shared_bucket_counts)@[b]
                == old(shared_bucket_counts)@[b] + owned_keys_in_partition(all_tables@, p, low, high, b)
            &&& final(shared_overflow_buffer)@.len() == old(shared_overflow_buffer)@.len()
            &&& forall|q: int| 0 <= q < old(shared_overflow_buffer)@.len()
                && (forall|pi: int, i: int, th: u64| !#[trigger] overflow_writer(all_tables@, low, high, pi, i, th, q))
                ==> final(shared_overflow_buffer)@[q] == old(shared_overflow_buffer)@[q]
            &&& forall|q: int, pi0: int, i0: int, th0: u64| #[trigger] overflow_writer(all_tables@, low, high, pi0, i0, th0, q)
                ==> exists|pi: int, i: int, th: u64| #[trigger] overflow_writer(all_tables@, low, high, pi, i, th, q)
                    && final(shared_overflow_buffer)@[q] == overflow_written(all_tables@, pi, i, th)
                    && forall|pi2: int, i2: int, th2: u64| #[trigger] overflow_writer(all_tables@, low, high, pi2, i2, th2, q)
                        ==> pi2 < pi || (pi2 == pi && i2 <= i)
        }),
{
    let partitioner = LocalTablePartitioner::new(shared_bucket_counts.len());
    let (low, high) = get_owned_range(local_bucket_count, parallelism, thread_index);
    let ghost p = partitioner;
    let ghost all = all_tables@;
    let ghost m = all_tables@.len() as int;
    let ghost c0 = shared_bucket_counts@;
    let ghost ov0 = shared_overflow_buffer@;
    proof {
        partitioner.lemma_of_partitions();
        assert(local_bucket_count as int / parallelism as int >= 0) by (nonlinear_arith)
            requires parallelism > 0;
    }
    let mut merged_tables: Vec<LocalTable> = Vec::new();
    let mut partition_index = low;
    while partition_index < high
        invariant
            p == partitioner,
            partitioner.wf(),
            power_of_two(partitioner.partitions()),
            LocalTablePartitioner::of_partitions(c0.len() as int) == p,
            partitioner.partitions() == c0.len(),
            all == all_tables@,
            m == all.len(),
            m >= 1,
            low <= partition_index <= high,
            forall|i: int| 0 <= i < m ==> (#[trigger] all[i])@.len() >= high,
            forall|i: int, pi: int| 0 <= i < m && low <= pi < high ==> local_table_entries(#[trigger] all[i]@[pi]).dom().finite(),
            forall|pi: int, i: int, th: u64, q: int| #[trigger] overflow_writer(all, low as int, high as int, pi, i, th, q)
                ==> q < ov0.len(),
            forall|b: int| 0 <= b < c0.len() ==> #[trigger] c0[b] + owned_keys_in_partition(all, p, low as int, high as int, b) <= usize::MAX,
            merged_tables@.len() == partition_index - low,
            forall|k: int| 0 <= k < partition_index - low ==> local_table_entries(#[trigger] merged_tables@[k])
                == merged_upto(partition_tables(all, low + k), m - 1),
            shared_bucket_counts@.len() == c0.len(),
            forall|b: int| 0 <= b < c0.len() ==> #[trigger] shared_bucket_counts@[b]
                == c0[b] + owned_keys_in_partition(all, p, low as int, partition_index as int, b),
            shared_overflow_buffer@.len() == ov0.len(),
            forall|q: int| 0 <= q < ov0.len()
                && (forall|pi: int, i: int, th: u64| pi < partition_index ==> !#[trigger] overflow_writer(all, low as int, high as int, pi, i, th, q))
                ==> shared_overflow_buffer@[q] == ov0[q],
            forall|q: int, pi0: int, i0: int, th0: u64| pi0 < partition_index && #[trigger] overflow_writer(all, low as int, high as int, pi0, i0, th0, q)
                ==> exists|pi: int, i: int, th: u64| pi < partition_index && #[trigger] overflow_writer(all, low as int, high as int, pi, i, th, q)
                    && shared_overflow_buffer@[q] == overflow_written(all, pi, i, th)
                    && forall|pi2: int, i2: int, th2: u64| pi2 < partition_index
                        && #[trigger] overflow_writer(all, low as int, high as int, pi2, i2, th2, q)
                        ==> pi2 < pi || (pi2 == pi && i2 <= i),
        decreases high - partition_index,
    {
        let ghost pi = partition_index as int;
        let ghost ts = partition_tables(all, pi);
        proof {
            assert forall|k: int| 0 <= k < ts.len() implies (#[trigger] ts[k]).dom().finite() by {
                assert(local_table_entries(all[k]@[pi]).dom().finite());
            }
            assert(all[0]@.len() >= high);
            lemma_owned_count_grows(all, p, low as int, pi + 1, high as int, 0);
        }
        let mut merged_table = local_table_clone(&all_tables[0][partition_index]);
        let first_entries = local_table_iter(&merged_table);
        proof {
            assert(local_table_entries(merged_table) == ts[0]);
            assert forall|b: int| 0 <= b < c0.len() implies #[trigger] shared_bucket_counts@[b]
                + keys_in_partition(ts[0], p, b) <= usize::MAX by {
                lemma_owned_count_grows(all, p, low as int, pi + 1, high as int, b);
                lemma_merged_count_grows(ts, 0, m - 1, p, b);
            }
        }
        count_entries(&partitioner, &first_entries, Ghost(ts[0]), shared_bucket_counts);
        let ghost ov_pi = shared_overflow_buffer@;
        let mut i: usize = 1;
        while i < all_tables.len()
            invariant
                p == partitioner,
                partitioner.wf(),
                power_of_two(partitioner.partitions()),
                partitioner.partitions() == c0.len(),
                all == all_tables@,
                m == all.len(),
                low <= pi < high,
                pi == partition_index,
                ts == partition_tables(all, pi),
                forall|k: int| 0 <= k < ts.len() ==> (#[trigger] ts[k]).dom().finite(),
                forall|k: int| 0 <= k < m ==> (#[trigger] all[k])@.len() >= high,
                1 <= i <= m,
                forall|pi2: int, i2: int, th: u64, q: int| #[trigger] overflow_writer(all, low as int, high as int, pi2, i2, th, q)
                    ==> q < ov0.len(),
                forall|b: int| 0 <= b < c0.len() ==> #[trigger] c0[b] + owned_keys_in_partition(all, p, low as int, high as int, b) <= usize::MAX,
                local_table_entries(merged_table) == merged_upto(ts, i - 1),
                local_table_entries(merged_table).dom().finite(),
                shared_bucket_counts@.len() == c0.len(),
                forall|b: int| 0 <= b < c0.len() ==> #[trigger] shared_bucket_counts@[b]
                    == c0[b] + owned_keys_in_partition(all, p, low as int, pi, b) + keys_in_partition(merged_upto(ts, i - 1), p, b),
                shared_overflow_buffer@.len() == ov0.len(),
                forall|q: int| 0 <= q < ov0.len()
                    && (forall|pi2: int, i2: int, th: u64| (pi2 < pi || (pi2 == pi && i2 < i))
                        ==> !#[trigger] overflow_writer(all, low as int, high as int, pi2, i2, th, q))
                    ==> shared_overflow_buffer@[q] == ov0[q],
                forall|q: int, pi0: int, i0: int, th0: u64| (pi0 < pi || (pi0 == pi && i0 < i))
                    && #[trigger] overflow_writer(all, low as int, high as int, pi0, i0, th0, q)
                    ==> exists|pi1: int, i1: int, th1: u64| (pi1 < pi || (pi1 == pi && i1 < i))
                        && #[trigger] overflow_writer(all, low as int, high as int, pi1, i1, th1, q)
                        && shared_overflow_buffer@[q] == overflow_written(all, pi1, i1, th1)
                        && forall|pi2: int, i2: int, th2: u64| (pi2 < pi || (pi2 == pi && i2 < i))
                            && #[trigger] overflow_writer(all, low as int, high as int, pi2, i2, th2, q)
                            ==> pi2 < pi1 || (pi2 == pi1 && i2 <= i1),
            decreases m - i,
        {
            let ghost ii = i as int;
            let ghost before_merged = local_table_entries(merged_table);
            let ghost ov_before = shared_overflow_buffer@;
            proof {
                assert(all[ii]@.len() >= high);
            }
            let entries = local_table_iter(&all_tables[i][partition_index]);
            proof {
                assert(local_table_entries(all_tables@[ii]@[pi]) == ts[ii]);
                assert forall|th: u64| before_merged.contains_key(th) && #[trigger] ts[ii].contains_key(th)
                    implies ts[ii][th].end_of_chain < shared_overflow_buffer@.len() by {
                    assert(overflow_writer(all, low as int, high as int, pi, ii, th, ts[ii][th].end_of_chain as int));
                }
                assert forall|b: int| 0 <= b < c0.len() implies #[trigger] shared_bucket_counts@[b]
                    + keys_in_partition(merge_entries(before_merged, ts[ii]), p, b)
                    - keys_in_partition(before_merged, p, b) <= usize::MAX by {
                    lemma_owned_count_grows(all, p, low as int, pi + 1, high as int, b);
                    lemma_merged_count_grows(ts, ii, m - 1, p, b);
                }
            }
            merge_table_into(&partitioner, &mut merged_table, &entries, Ghost(ts[ii]), shared_overflow_buffer,
                shared_bucket_counts);
            proof {
                assert(merged_upto(ts, ii) == merge_entries(merged_upto(ts, ii - 1), ts[ii]));
                assert forall|pi2: int, i2: int, th: u64, q: int| pi2 == pi && i2 == ii
                    implies #[trigger] overflow_writer(all, low as int, high as int, pi2, i2, th, q)
                        == writes_overflow_at(before_merged, ts[ii], th, q) by {
                }
                assert forall|q: int| 0 <= q < ov0.len()
                    && (forall|pi2: int, i2: int, th: u64| (pi2 < pi || (pi2 == pi && i2 < ii + 1))
                        ==> !#[trigger] overflow_writer(all, low as int, high as int, pi2, i2, th, q))
                    implies shared_overflow_buffer@[q] == ov0[q] by {
                    assert forall|th: u64| !#[trigger] writes_overflow_at(before_merged, ts[ii], th, q) by {
                        assert(!overflow_writer(all, low as int, high as int, pi, ii, th, q));
                    }
                }
                assert forall|q: int, pi0: int, i0: int, th0: u64| (pi0 < pi || (pi0 == pi && i0 < ii + 1))
                    && #[trigger] overflow_writer(all, low as int, high as int, pi0, i0, th0, q)
                    implies exists|pi1: int, i1: int, th1: u64| (pi1 < pi || (pi1 == pi && i1 < ii + 1))
                        && #[trigger] overflow_writer(all, low as int, high as int, pi1, i1, th1, q)
                        && shared_overflow_buffer@[q] == overflow_written(all, pi1, i1, th1)
                        && forall|pi2: int, i2: int, th2: u64| (pi2 < pi || (pi2 == pi && i2 < ii + 1))
                            && #[trigger] overflow_writer(all, low as int, high as int, pi2, i2, th2, q)
                            ==> pi2 < pi1 || (pi2 == pi1 && i2 <= i1) by {
                    if exists|th: u64| #[trigger] writes_overflow_at(before_merged, ts[ii], th, q) {
                        let thw = choose|th: u64| #[trigger] writes_overflow_at(before_merged, ts[ii], th, q);
                        let th1 = choose|th: u64| #[trigger] writes_overflow_at(before_merged, ts[ii], th, q)
                            && shared_overflow_buffer@[q] == before_merged[th].global_index;
                        assert(overflow_writer(all, low as int, high as int, pi, ii, th1, q));
                    } else {
                        assert forall|th: u64| !#[trigger] writes_overflow_at(before_merged, ts[ii], th, q) by {}
                        assert(shared_overflow_buffer@[q] == ov_before[q]);
                        assert(pi0 < pi || (pi0 == pi && i0 < ii)) by {
                            if pi0 == pi && i0 == ii {
                                assert(writes_overflow_at(before_merged, ts[ii], th0, q));
                            }
                        }
                        let (pi1, i1, th1) = choose|pi1: int, i1: int, th1: u64| (pi1 < pi || (pi1 == pi && i1 < ii))
                            && #[trigger] overflow_writer(all, low as int, high as int, pi1, i1, th1, q)
                            && ov_before[q] == overflow_written(all, pi1, i1, th1)
                            && forall|pi2: int, i2: int, th2: u64| (pi2 < pi || (pi2 == pi && i2 < ii))
                                && #[trigger] overflow_writer(all, low as int, high as int, pi2, i2, th2, q)
                                ==> pi2 < pi1 || (pi2 == pi1 && i2 <= i1);
                        assert forall|pi2: int, i2: int, th2: u64| (pi2 < pi || (pi2 == pi && i2 < ii + 1))
                            && #[trigger] overflow_writer(all, low as int, high as int, pi2, i2, th2, q)
                            implies pi2 < pi1 || (pi2 == pi1 && i2 <= i1) by {
                            if pi2 == pi && i2 == ii {
                                assert(writes_overflow_at(before_merged, ts[ii], th2, q));
                            }
                        }
                    }
                }
            }
            i += 1;
        }
        merged_tables.push(merged_table);
        proof {
            assert(merged_tables@[pi - low] == merged_table);
        }
        partition_index += 1;
    }
    merged_tables
}

} // verus!
