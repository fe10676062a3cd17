//! What the overflow links of the local build give back: following them
//! from the entry of a transformed hash visits every insertion index of a
//! value with that transformed hash, latest first, and ends at 0.

use vstd::prelude::*;
use crate::concurrent_build::LocalTablePartitioner;
use crate::global_index_tracker::Offset;
use crate::local_tables::{LocalEntry, LocalTable, local_table_entries, partition_of, last_routed, first_routed,
    local_overflow_of, accumulated_local_entries, merged_upto, merge_entries, partition_tables, overflow_writer,
    overflow_written};
use std::sync::Arc;
use crate::lookup::{chain_at, chain_ends_at};
use crate::destination::holds_every_entry;

verus! {

/// The positions below `k` of `input` whose values have transformed hash
/// `th` and partition `t`, latest first.
pub open spec fn routed_positions(p: LocalTablePartitioner, input: Seq<u64>, k: int, th: u64, t: int) -> Seq<int>
    decreases k,
{
    if k <= 0 {
        Seq::empty()
    } else {
        let rest = routed_positions(p, input, k - 1, th, t);
        if p.spec_transformed_hash(input[k - 1]) == th && partition_of(p, input[k - 1]) == t {
            seq![k - 1] + rest
        } else {
            rest
        }
    }
}

/// The routed positions are those that the last and first routed positions
/// bound, latest first, each below `k`.
proof fn lemma_routed_positions(p: LocalTablePartitioner, input: Seq<u64>, k: int, th: u64, t: int)
    requires
        0 <= k <= input.len(),
    ensures
        ({
            let occ = routed_positions(p, input, k, th, t);
            &&& (occ.len() > 0) == (last_routed(p, input, k, th, t) >= 0)
            &&& occ.len() == 0 ==> first_routed(p, input, k, th, t) < 0
            &&& occ.len() > 0 ==> occ[0] == last_routed(p, input, k, th, t)
            &&& occ.len() > 0 ==> occ[occ.len() - 1] == first_routed(p, input, k, th, t)
            &&& forall|j: int| 0 <= j < occ.len() ==> 0 <= #[trigger] occ[j] < k
            &&& forall|j: int| 0 <= j < occ.len() ==> p.spec_transformed_hash(input[#[trigger] occ[j]]) == th
                && partition_of(p, input[occ[j]]) == t
        }),
    decreases k,
{
    if k > 0 {
        lemma_routed_positions(p, input, k - 1, th, t);
        let rest = routed_positions(p, input, k - 1, th, t);
        if p.spec_transformed_hash(input[k - 1]) == th && partition_of(p, input[k - 1]) == t {
            let occ = seq![k - 1] + rest;
            assert forall|j: int| 0 <= j < occ.len() implies 0 <= #[trigger] occ[j] < k by {
                if j > 0 {
                    assert(occ[j] == rest[j - 1]);
                }
            }
            assert forall|j: int| 0 <= j < occ.len() implies p.spec_transformed_hash(input[#[trigger] occ[j]]) == th
                && partition_of(p, input[occ[j]]) == t by {
                if j > 0 {
                    assert(occ[j] == rest[j - 1]);
                }
            }
            if rest.len() > 0 {
                assert(occ[occ.len() - 1] == rest[rest.len() - 1]);
            }
        }
    }
}

/// A chain followed for `a + b` steps is the chain from its `a`th index
/// followed for `b` steps.
pub proof fn lemma_chain_split(overflow: Seq<usize>, first: usize, a: nat, b: nat)
    requires
        chain_at(overflow, first, a) >= 0,
    ensures
        chain_at(overflow, first, a + b) == chain_at(overflow, chain_at(overflow, first, a) as usize, b),
    decreases b,
{
    if b > 0 {
        lemma_chain_split(overflow, first, a, (b - 1) as nat);
        assert((a + b - 1) as nat == a + (b - 1) as nat);
    }
}

/// The position of the shared overflow buffer that the link of value `q`
/// of an input at `offset` goes to.
pub open spec fn copied_index(offset: Offset, q: int) -> int {
    offset.size + q + 1
}

/// Where the links of an input lead once its occurrences of `th` in table
/// `t` are used up: to the latest index the table held for `th` before the
/// input, else to what the buffer held at the first occurrence.
pub open spec fn link_out(before: Seq<LocalTable>, overflow: Seq<usize>, t: int, th: u64, first: int) -> int {
    let entries = local_table_entries(before[t]);
    if entries.contains_key(th) {
        entries[th].global_index as int
    } else {
        overflow[first] as int
    }
}

/// Within one input: from the insertion index of the latest of its first
/// `k` values routed to `(th, t)`, the links visit those values latest
/// first, then lead out of the input.
proof fn lemma_input_chain(
    p: LocalTablePartitioner,
    offset: Offset,
    input: Seq<u64>,
    before: Seq<LocalTable>,
    overflow: Seq<usize>,
    shared: Seq<usize>,
    t: int,
    th: u64,
    k: int,
)
    requires
        0 <= k <= input.len(),
        overflow.len() >= input.len(),
        offset.size + input.len() < shared.len(),
        offset.size + input.len() + 1 <= usize::MAX,
        forall|q: int| 0 <= q < input.len() ==> shared[#[trigger] copied_index(offset, q)]
            == local_overflow_of(before, overflow, p, offset, input, q),
    ensures
        ({
            let occ = routed_positions(p, input, k, th, t);
            let start = (offset.size + occ[0] + 1) as usize;
            occ.len() > 0 ==> {
                &&& forall|j: int| 0 <= j < occ.len() ==> #[trigger] chain_at(shared, start, j as nat) == offset.size + occ[j] + 1
                &&& chain_at(shared, start, occ.len()) == link_out(before, overflow, t, th, occ[occ.len() - 1])
            }
        }),
    decreases k,
{
    if k > 0 {
        lemma_input_chain(p, offset, input, before, overflow, shared, t, th, k - 1);
        lemma_routed_positions(p, input, k - 1, th, t);
        lemma_routed_positions(p, input, k, th, t);
        let rest = routed_positions(p, input, k - 1, th, t);
        if p.spec_transformed_hash(input[k - 1]) == th && partition_of(p, input[k - 1]) == t {
            let occ = seq![k - 1] + rest;
            let start = (offset.size + k) as usize;
            assert(occ[0] == k - 1);
            // The first link leaves the latest value for the one before it.
            let link = shared[copied_index(offset, k - 1)];
            assert(link == local_overflow_of(before, overflow, p, offset, input, k - 1));
            assert(chain_at(shared, start, 0) == start as int);
            assert(chain_at(shared, start, 1) == link);
            if rest.len() > 0 {
                let rest_start = (offset.size + rest[0] + 1) as usize;
                assert(link == rest_start);
                assert forall|j: int| 0 <= j < occ.len() implies #[trigger] chain_at(shared, start, j as nat) == offset.size + occ[j] + 1 by {
                    if j > 0 {
                        lemma_chain_split(shared, start, 1, (j - 1) as nat);
                        assert(occ[j] == rest[j - 1]);
                        assert(chain_at(shared, rest_start, (j - 1) as nat) == offset.size + rest[j - 1] + 1);
                        assert((1 + (j - 1) as nat) as nat == j as nat);
                    }
                }
                lemma_chain_split(shared, start, 1, rest.len());
                assert(occ.len() == 1 + rest.len());
                assert(occ[occ.len() - 1] == rest[rest.len() - 1]);
            } else {
                assert(last_routed(p, input, k - 1, th, t) < 0);
                assert(occ.len() == 1);
                assert(link == link_out(before, overflow, t, th, k - 1));
            }
        }
    }
}

/// The insertion indices of the values of the first `n` inputs routed to
/// `(th, t)`, latest first: the inputs from the last to the first, and the
/// values of each from the last to the first.
pub open spec fn thread_occurrences(
    p: LocalTablePartitioner,
    inputs: Seq<Seq<u64>>,
    offsets: Seq<Offset>,
    n: int,
    th: u64,
    t: int,
) -> Seq<int>
    decreases n,
{
    if n <= 0 {
        Seq::empty()
    } else {
        let input = inputs[n - 1];
        let size = offsets[n - 1].size;
        routed_positions(p, input, input.len() as int, th, t).map_values(|q: int| size + q + 1)
            + thread_occurrences(p, inputs, offsets, n - 1, th, t)
    }
}

/// A fresh overflow buffer for an input of `n` values.
pub open spec fn zeroed(n: nat) -> Seq<usize> {
    Seq::new(n, |q: int| 0usize)
}

/// The state of the local tables and of the shared overflow buffer after a
/// worker added `inputs`, each at its offset, one after the other, to tables
/// that started empty, and each input's overflow links were copied into the
/// shared buffer one past its offset.
pub open spec fn worker_built(
    p: LocalTablePartitioner,
    inputs: Seq<Seq<u64>>,
    offsets: Seq<Offset>,
    tables: Seq<Seq<LocalTable>>,
    shared: Seq<usize>,
) -> bool {
    let n = inputs.len() as int;
    &&& offsets.len() == n
    &&& tables.len() == n + 1
    &&& forall|i: int| 0 <= i <= n ==> (#[trigger] tables[i]).len() == p.partitions()
    &&& forall|t: int| 0 <= t < p.partitions() ==> local_table_entries(#[trigger] tables[0][t]) == Map::<u64, LocalEntry>::empty()
    &&& forall|i: int, t: int| 0 <= i < n && 0 <= t < p.partitions() ==> local_table_entries(#[trigger] tables[i + 1][t])
        == accumulated_local_entries(local_table_entries(tables[i][t]), t, p, offsets[i], inputs[i], inputs[i].len() as int)
    &&& forall|i: int| 0 <= i < n ==> (#[trigger] offsets[i]).size + inputs[i].len() < shared.len()
    &&& forall|i: int| 0 <= i < n ==> (#[trigger] offsets[i]).size + inputs[i].len() + 1 <= usize::MAX
    &&& forall|i: int, q: int| 0 <= i < n && 0 <= q < inputs[i].len() ==> shared[#[trigger] copied_index(offsets[i], q)]
        == local_overflow_of(tables[i], zeroed(inputs[i].len()), p, offsets[i], inputs[i], q)
}

/// One worker's build gives back what went in: for each transformed hash in
/// a local table, the entry holds the insertion index of its latest value
/// and that of its first one, and the overflow links from the latest visit
/// the insertion index of every value of the worker's inputs routed there,
/// latest first, and then end at 0.
pub proof fn lemma_worker_chains(
    p: LocalTablePartitioner,
    inputs: Seq<Seq<u64>>,
    offsets: Seq<Offset>,
    tables: Seq<Seq<LocalTable>>,
    shared: Seq<usize>,
    t: int,
    th: u64,
)
    requires
        worker_built(p, inputs, offsets, tables, shared),
        0 <= t < p.partitions(),
    ensures
        ({
            let n = inputs.len() as int;
            let occ = thread_occurrences(p, inputs, offsets, n, th, t);
            let entries = local_table_entries(tables[n][t]);
            &&& entries.contains_key(th) == (occ.len() > 0)
            &&& entries.contains_key(th) ==> {
                &&& entries[th].global_index == occ[0]
                &&& entries[th].end_of_chain == occ[occ.len() - 1]
                &&& forall|j: int| 0 <= j < occ.len() ==> #[trigger] chain_at(shared, entries[th].global_index, j as nat) == occ[j]
                &&& chain_at(shared, entries[th].global_index, occ.len()) == 0
            }
        }),
    decreases inputs.len(),
{
    let n = inputs.len() as int;
    if n == 0 {
        assert(local_table_entries(tables[0][t]) == Map::<u64, LocalEntry>::empty());
    } else {
        let m = n - 1;
        let before_inputs = inputs.take(m);
        let before_offsets = offsets.take(m);
        let before_tables = tables.take(m + 1);
        assert(worker_built(p, before_inputs, before_offsets, before_tables, shared)) by {
            assert forall|i: int, t2: int| 0 <= i < m && 0 <= t2 < p.partitions() implies local_table_entries(#[trigger] before_tables[i + 1][t2])
                == accumulated_local_entries(local_table_entries(before_tables[i][t2]), t2, p, before_offsets[i], before_inputs[i],
                    before_inputs[i].len() as int) by {
                assert(before_tables[i + 1] == tables[i + 1]);
                assert(before_tables[i] == tables[i]);
            }
            assert forall|i: int, q: int| 0 <= i < m && 0 <= q < before_inputs[i].len() implies shared[#[trigger] copied_index(before_offsets[i], q)]
                == local_overflow_of(before_tables[i], zeroed(before_inputs[i].len()), p, before_offsets[i], before_inputs[i], q) by {
                assert(before_tables[i] == tables[i]);
                assert(before_offsets[i] == offsets[i]);
                assert(before_inputs[i] == inputs[i]);
            }
        }
        lemma_worker_chains(p, before_inputs, before_offsets, before_tables, shared, t, th);
        let occ_before = thread_occurrences(p, before_inputs, before_offsets, m, th, t);
        assert(occ_before == thread_occurrences(p, inputs, offsets, m, th, t)) by {
            lemma_occurrences_prefix(p, inputs, offsets, m, th, t);
        }
        let input = inputs[m];
        let offset = offsets[m];
        let len = input.len() as int;
        let zeros = zeroed(input.len());
        let occ_in = routed_positions(p, input, len, th, t);
        let mapped = occ_in.map_values(|q: int| offset.size + q + 1);
        let occ = thread_occurrences(p, inputs, offsets, n, th, t);
        assert(occ == mapped + occ_before);
        let before_entries = local_table_entries(tables[m][t]);
        let entries = local_table_entries(tables[n][t]);
        assert(entries == accumulated_local_entries(before_entries, t, p, offset, input, len));
        assert(tables[m] == before_tables[m]);
        lemma_routed_positions(p, input, len, th, t);
        if occ_in.len() == 0 {
            assert(occ =~= occ_before);
            assert(last_routed(p, input, len, th, t) < 0);
        } else {
            assert forall|q: int| 0 <= q < input.len() implies shared[#[trigger] copied_index(offset, q)]
                == local_overflow_of(tables[m], zeros, p, offset, input, q) by {}
            lemma_input_chain(p, offset, input, tables[m], zeros, shared, t, th, len);
            let last = last_routed(p, input, len, th, t);
            let start = (offset.size + occ_in[0] + 1) as usize;
            assert(entries[th].global_index == start);
            let mm = occ_in.len();
            let out = link_out(tables[m], zeros, t, th, occ_in[mm - 1]);
            assert(chain_at(shared, start, mm) == out);
            if before_entries.contains_key(th) {
                assert(out == occ_before[0]);
                assert forall|j: int| 0 <= j < occ.len() implies #[trigger] chain_at(shared, entries[th].global_index, j as nat) == occ[j] by {
                    if j >= mm {
                        lemma_chain_split(shared, start, mm, (j - mm) as nat);
                        assert((mm + (j - mm) as nat) as nat == j as nat);
                        assert(occ[j] == occ_before[j - mm]);
                    } else {
                        assert(occ[j] == mapped[j]);
                    }
                }
                lemma_chain_split(shared, start, mm, occ_before.len());
                assert(occ[occ.len() - 1] == occ_before[occ_before.len() - 1]);
            } else {
                assert(occ_before.len() == 0);
                assert(occ =~= mapped);
                assert(out == 0);
                assert forall|j: int| 0 <= j < occ.len() implies #[trigger] chain_at(shared, entries[th].global_index, j as nat) == occ[j] by {
                    assert(occ[j] == mapped[j]);
                }
            }
        }
    }
}

/// The occurrences of the first `m` inputs do not depend on the inputs after
/// them.
proof fn lemma_occurrences_prefix(
    p: LocalTablePartitioner,
    inputs: Seq<Seq<u64>>,
    offsets: Seq<Offset>,
    m: int,
    th: u64,
    t: int,
)
    requires
        0 <= m <= inputs.len(),
        m <= offsets.len(),
    ensures
        thread_occurrences(p, inputs.take(m), offsets.take(m), m, th, t) == thread_occurrences(p, inputs, offsets, m, th, t),
    decreases m,
{
    if m > 0 {
        lemma_occurrences_prefix_at(p, inputs, offsets, m, m - 1, th, t);
    }
}

/// The occurrences of the first `k` inputs are the same whether counted
/// among the first `m` inputs or among all of them.
proof fn lemma_occurrences_prefix_at(
    p: LocalTablePartitioner,
    inputs: Seq<Seq<u64>>,
    offsets: Seq<Offset>,
    m: int,
    k: int,
    th: u64,
    t: int,
)
    requires
        0 <= k <= m,
        m <= inputs.len(),
        m <= offsets.len(),
    ensures
        thread_occurrences(p, inputs.take(m), offsets.take(m), k, th, t) == thread_occurrences(p, inputs, offsets, k, th, t),
    decreases k,
{
    if k > 0 {
        lemma_occurrences_prefix_at(p, inputs, offsets, m, k - 1, th, t);
        assert(inputs.take(m)[k - 1] == inputs[k - 1]);
        assert(offsets.take(m)[k - 1] == offsets[k - 1]);
    }
}

/// Every insertion index that a worker's occurrences list is one past a
/// value of one of its inputs routed to `(th, t)`.
proof fn lemma_occurrence_source(
    p: LocalTablePartitioner,
    inputs: Seq<Seq<u64>>,
    offsets: Seq<Offset>,
    n: int,
    th: u64,
    t: int,
    j: int,
)
    requires
        0 <= n <= inputs.len(),
        n <= offsets.len(),
        0 <= j < thread_occurrences(p, inputs, offsets, n, th, t).len(),
    ensures
        exists|a: int, q: int| 0 <= a < n && 0 <= q < inputs[a].len()
            && thread_occurrences(p, inputs, offsets, n, th, t)[j] == #[trigger] copied_index(offsets[a], q)
            && p.spec_transformed_hash(inputs[a][q]) == th && partition_of(p, inputs[a][q]) == t,
    decreases n,
{
    let input = inputs[n - 1];
    let size = offsets[n - 1].size;
    let occ_in = routed_positions(p, input, input.len() as int, th, t);
    let mapped = occ_in.map_values(|q: int| size + q + 1);
    let rest = thread_occurrences(p, inputs, offsets, n - 1, th, t);
    let occ = thread_occurrences(p, inputs, offsets, n, th, t);
    assert(occ == mapped + rest);
    if j < mapped.len() {
        lemma_routed_positions(p, input, input.len() as int, th, t);
        let q = occ_in[j];
        assert(occ[j] == copied_index(offsets[n - 1], q));
    } else {
        assert(occ[j] == rest[j - mapped.len()]);
        lemma_occurrence_source(p, inputs, offsets, n - 1, th, t, j - mapped.len());
    }
}

/// Two buffers that agree at the first `k` indices of a chain give the same
/// chain up to its `k`th index.
proof fn lemma_chain_agree(a: Seq<usize>, b: Seq<usize>, first: usize, k: nat)
    requires
        a.len() == b.len(),
        forall|j: nat| j < k && 0 <= #[trigger] chain_at(a, first, j) < a.len() ==> a[chain_at(a, first, j)] == b[chain_at(a, first, j)],
    ensures
        forall|j: nat| j <= k ==> #[trigger] chain_at(a, first, j) == chain_at(b, first, j),
    decreases k,
{
    if k > 0 {
        lemma_chain_agree(a, b, first, (k - 1) as nat);
        assert forall|j: nat| j <= k implies #[trigger] chain_at(a, first, j) == chain_at(b, first, j) by {
            if j == k {
                assert(chain_at(a, first, (k - 1) as nat) == chain_at(b, first, (k - 1) as nat));
            }
        }
    }
}

/// The insertion indices of the values routed to `(th, t)` over the first
/// `w` workers, latest worker first.
pub open spec fn all_occurrences(
    p: LocalTablePartitioner,
    inputs: Seq<Seq<Seq<u64>>>,
    offsets: Seq<Seq<Offset>>,
    w: int,
    th: u64,
    t: int,
) -> Seq<int>
    decreases w,
{
    if w <= 0 {
        Seq::empty()
    } else {
        thread_occurrences(p, inputs[w - 1], offsets[w - 1], inputs[w - 1].len() as int, th, t)
            + all_occurrences(p, inputs, offsets, w - 1, th, t)
    }
}

/// No two values of any inputs of any workers share an insertion index.
pub open spec fn unique_insertion_indices(inputs: Seq<Seq<Seq<u64>>>, offsets: Seq<Seq<Offset>>) -> bool {
    forall|w1: int, a1: int, q1: int, w2: int, a2: int, q2: int|
        0 <= w1 < inputs.len() && 0 <= a1 < inputs[w1].len() && 0 <= q1 < inputs[w1][a1].len()
        && 0 <= w2 < inputs.len() && 0 <= a2 < inputs[w2].len() && 0 <= q2 < inputs[w2][a2].len()
        && #[trigger] copied_index(offsets[w1][a1], q1) == #[trigger] copied_index(offsets[w2][a2], q2)
        ==> w1 == w2 && a1 == a2 && q1 == q2
}

/// The state after every worker built its local tables into the same shared
/// overflow buffer, `all` holding each worker's final tables.
pub open spec fn workers_built(
    p: LocalTablePartitioner,
    inputs: Seq<Seq<Seq<u64>>>,
    offsets: Seq<Seq<Offset>>,
    tables: Seq<Seq<Seq<LocalTable>>>,
    all: Seq<Arc<Vec<LocalTable>>>,
    shared: Seq<usize>,
) -> bool {
    &&& inputs.len() >= 1
    &&& offsets.len() == inputs.len()
    &&& tables.len() == inputs.len()
    &&& all.len() == inputs.len()
    &&& forall|w: int| 0 <= w < inputs.len() ==> worker_built(p, #[trigger] inputs[w], offsets[w], tables[w], shared)
    &&& forall|w: int| 0 <= w < inputs.len() ==> (#[trigger] all[w])@ == tables[w][inputs[w].len() as int]
    &&& unique_insertion_indices(inputs, offsets)
}

/// `merged` is `shared` after the merges of all partitions linked the
/// chains of the workers: as the merge of each range of partitions leaves
/// the buffer.
pub open spec fn chains_linked(all: Seq<Arc<Vec<LocalTable>>>, partitions: int, shared: Seq<usize>, merged: Seq<usize>) -> bool {
    &&& merged.len() == shared.len()
    &&& forall|q: int| 0 <= q < shared.len()
        && (forall|pi: int, i: int, th: u64| !#[trigger] overflow_writer(all, 0, partitions, pi, i, th, q))
        ==> merged[q] == shared[q]
    &&& forall|q: int, pi0: int, i0: int, th0: u64| #[trigger] overflow_writer(all, 0, partitions, pi0, i0, th0, q)
        ==> exists|pi: int, i: int, th: u64| #[trigger] overflow_writer(all, 0, partitions, pi, i, th, q)
            && merged[q] == overflow_written(all, pi, i, th)
}

/// A write of the merge lands on the chain of worker `i` for `(th, t)` only
/// at the end of that chain, and only from the merge of that table.
proof fn lemma_writer_on_chain(
    p: LocalTablePartitioner,
    inputs: Seq<Seq<Seq<u64>>>,
    offsets: Seq<Seq<Offset>>,
    tables: Seq<Seq<Seq<LocalTable>>>,
    all: Seq<Arc<Vec<LocalTable>>>,
    shared: Seq<usize>,
    i: int,
    t: int,
    th: u64,
    j: int,
    pi: int,
    i2: int,
    th2: u64,
)
    requires
        workers_built(p, inputs, offsets, tables, all, shared),
        0 <= i < inputs.len(),
        0 <= t < p.partitions(),
        0 <= j < thread_occurrences(p, inputs[i], offsets[i], inputs[i].len() as int, th, t).len(),
        overflow_writer(all, 0, p.partitions(), pi, i2, th2,
            thread_occurrences(p, inputs[i], offsets[i], inputs[i].len() as int, th, t)[j]),
    ensures
        pi == t,
        i2 == i,
        th2 == th,
        j == thread_occurrences(p, inputs[i], offsets[i], inputs[i].len() as int, th, t).len() - 1,
{
    let occ = thread_occurrences(p, inputs[i], offsets[i], inputs[i].len() as int, th, t);
    let x = occ[j];
    assert(worker_built(p, inputs[i], offsets[i], tables[i], shared));
    assert(worker_built(p, inputs[i2], offsets[i2], tables[i2], shared));
    lemma_worker_chains(p, inputs[i], offsets[i], tables[i], shared, t, th);
    lemma_worker_chains(p, inputs[i2], offsets[i2], tables[i2], shared, pi, th2);
    let occ2 = thread_occurrences(p, inputs[i2], offsets[i2], inputs[i2].len() as int, th2, pi);
    let entries2 = local_table_entries(tables[i2][inputs[i2].len() as int][pi]);
    assert(partition_tables(all, pi)[i2] == entries2);
    assert(entries2.contains_key(th2) && entries2[th2].end_of_chain == x);
    let j2 = occ2.len() - 1;
    lemma_occurrence_source(p, inputs[i], offsets[i], inputs[i].len() as int, th, t, j);
    lemma_occurrence_source(p, inputs[i2], offsets[i2], inputs[i2].len() as int, th2, pi, j2);
    let (a, q) = choose|a: int, q: int| 0 <= a < inputs[i].len() && 0 <= q < inputs[i][a].len()
        && occ[j] == #[trigger] copied_index(offsets[i][a], q)
        && p.spec_transformed_hash(inputs[i][a][q]) == th && partition_of(p, inputs[i][a][q]) == t;
    let (a2, q2) = choose|a2: int, q2: int| 0 <= a2 < inputs[i2].len() && 0 <= q2 < inputs[i2][a2].len()
        && occ2[j2] == #[trigger] copied_index(offsets[i2][a2], q2)
        && p.spec_transformed_hash(inputs[i2][a2][q2]) == th2 && partition_of(p, inputs[i2][a2][q2]) == pi;
    assert(copied_index(offsets[i][a], q) == copied_index(offsets[i2][a2], q2));
    assert(i == i2 && a == a2 && q == q2);
    // The chain of worker `i` visits distinct indices, so `x` is its last.
    if j != occ.len() - 1 {
        lemma_occurrences_distinct(p, inputs, offsets, i, th, t, j, occ.len() - 1);
        assert(false);
    }
}

/// The occurrences of a worker are distinct.
proof fn lemma_occurrences_distinct(
    p: LocalTablePartitioner,
    inputs: Seq<Seq<Seq<u64>>>,
    offsets: Seq<Seq<Offset>>,
    i: int,
    th: u64,
    t: int,
    j1: int,
    j2: int,
)
    requires
        0 <= i < inputs.len(),
        offsets.len() == inputs.len(),
        forall|a: int| 0 <= a < inputs[i].len() ==> (#[trigger] offsets[i][a]).size + inputs[i][a].len() + 1 <= usize::MAX,
        offsets[i].len() == inputs[i].len(),
        unique_insertion_indices(inputs, offsets),
        0 <= j1 < j2 < thread_occurrences(p, inputs[i], offsets[i], inputs[i].len() as int, th, t).len(),
    ensures
        thread_occurrences(p, inputs[i], offsets[i], inputs[i].len() as int, th, t)[j1]
            != thread_occurrences(p, inputs[i], offsets[i], inputs[i].len() as int, th, t)[j2],
{
    lemma_thread_occurrences_distinct(p, inputs, offsets, i, inputs[i].len() as int, th, t, j1, j2);
}

proof fn lemma_thread_occurrences_distinct(
    p: LocalTablePartitioner,
    inputs: Seq<Seq<Seq<u64>>>,
    offsets: Seq<Seq<Offset>>,
    i: int,
    n: int,
    th: u64,
    t: int,
    j1: int,
    j2: int,
)
    requires
        0 <= i < inputs.len(),
        offsets.len() == inputs.len(),
        offsets[i].len() == inputs[i].len(),
        0 <= n <= inputs[i].len(),
        unique_insertion_indices(inputs, offsets),
        0 <= j1 < j2 < thread_occurrences(p, inputs[i], offsets[i], n, th, t).len(),
    ensures
        thread_occurrences(p, inputs[i], offsets[i], n, th, t)[j1] != thread_occurrences(p, inputs[i], offsets[i], n, th, t)[j2],
    decreases n,
{
    let ins = inputs[i];
    let offs = offsets[i];
    let input = ins[n - 1];
    let size = offs[n - 1].size;
    let occ_in = routed_positions(p, input, input.len() as int, th, t);
    let mapped = occ_in.map_values(|q: int| size + q + 1);
    let rest = thread_occurrences(p, ins, offs, n - 1, th, t);
    let occ = thread_occurrences(p, ins, offs, n, th, t);
    assert(occ == mapped + rest);
    lemma_routed_positions(p, input, input.len() as int, th, t);
    if j2 < mapped.len() {
        lemma_routed_strictly_decreasing(p, input, input.len() as int, th, t, j1, j2);
    } else if j1 >= mapped.len() {
        lemma_thread_occurrences_distinct(p, inputs, offsets, i, n - 1, th, t, j1 - mapped.len(), j2 - mapped.len());
    } else {
        // One index comes from input `n - 1`, the other from an earlier one.
        lemma_occurrence_source(p, ins, offs, n - 1, th, t, j2 - mapped.len());
        let (a, q) = choose|a: int, q: int| 0 <= a < n - 1 && 0 <= q < ins[a].len()
            && rest[j2 - mapped.len()] == #[trigger] copied_index(offs[a], q)
            && p.spec_transformed_hash(ins[a][q]) == th && partition_of(p, ins[a][q]) == t;
        let q1 = occ_in[j1];
        assert(occ[j1] == copied_index(offs[n - 1], q1));
        assert(inputs[i][n - 1] == input);
        if occ[j1] == occ[j2] {
            assert(copied_index(offsets[i][n - 1], q1) == copied_index(offsets[i][a], q));
        }
    }
}

/// The routed positions are strictly decreasing.
proof fn lemma_routed_strictly_decreasing(p: LocalTablePartitioner, input: Seq<u64>, k: int, th: u64, t: int, j1: int, j2: int)
    requires
        0 <= k <= input.len(),
        0 <= j1 < j2 < routed_positions(p, input, k, th, t).len(),
    ensures
        routed_positions(p, input, k, th, t)[j1] > routed_positions(p, input, k, th, t)[j2],
    decreases k,
{
    let rest = routed_positions(p, input, k - 1, th, t);
    lemma_routed_positions(p, input, k - 1, th, t);
    if p.spec_transformed_hash(input[k - 1]) == th && partition_of(p, input[k - 1]) == t {
        let occ = seq![k - 1] + rest;
        if j1 == 0 {
            assert(occ[j2] == rest[j2 - 1]);
        } else {
            lemma_routed_strictly_decreasing(p, input, k - 1, th, t, j1 - 1, j2 - 1);
            assert(occ[j1] == rest[j1 - 1]);
            assert(occ[j2] == rest[j2 - 1]);
        }
    } else {
        lemma_routed_strictly_decreasing(p, input, k - 1, th, t, j1, j2);
    }
}

/// The merged entry of `th` over the first `i + 1` tables, and the chain
/// that starts at it in the linked buffer.
proof fn lemma_merged_prefix_chain(
    p: LocalTablePartitioner,
    inputs: Seq<Seq<Seq<u64>>>,
    offsets: Seq<Seq<Offset>>,
    tables: Seq<Seq<Seq<LocalTable>>>,
    all: Seq<Arc<Vec<LocalTable>>>,
    shared: Seq<usize>,
    merged: Seq<usize>,
    t: int,
    th: u64,
    i: int,
)
    requires
        workers_built(p, inputs, offsets, tables, all, shared),
        chains_linked(all, p.partitions(), shared, merged),
        0 <= t < p.partitions(),
        0 <= i < inputs.len(),
    ensures
        ({
            let occ = all_occurrences(p, inputs, offsets, i + 1, th, t);
            let entries = merged_upto(partition_tables(all, t), i);
            &&& entries.contains_key(th) == (occ.len() > 0)
            &&& entries.contains_key(th) ==> {
                &&& forall|j: int| 0 <= j < occ.len() ==> #[trigger] chain_at(merged, entries[th].global_index, j as nat) == occ[j]
                &&& chain_at(merged, entries[th].global_index, occ.len()) == 0
            }
        }),
    decreases i,
{
    let tab = partition_tables(all, t);
    let n = inputs[i].len() as int;
    assert(worker_built(p, inputs[i], offsets[i], tables[i], shared));
    lemma_worker_chains(p, inputs[i], offsets[i], tables[i], shared, t, th);
    let own = thread_occurrences(p, inputs[i], offsets[i], n, th, t);
    let table = local_table_entries(tables[i][n][t]);
    assert(tab[i] == table);
    let occ = all_occurrences(p, inputs, offsets, i + 1, th, t);
    let earlier = all_occurrences(p, inputs, offsets, i, th, t);
    assert(occ == own + earlier);
    let entries = merged_upto(tab, i);
    let prev = merged_upto(tab, i - 1);
    if i > 0 {
        lemma_merged_prefix_chain(p, inputs, offsets, tables, all, shared, merged, t, th, i - 1);
        assert(entries == merge_entries(prev, tab[i]));
    } else {
        assert(earlier.len() == 0);
        assert(entries == tab[0]);
    }
    if !table.contains_key(th) {
        assert(own.len() == 0);
        assert(occ =~= earlier);
        if i > 0 {
            assert(entries.contains_key(th) == prev.contains_key(th));
            if prev.contains_key(th) {
                assert(entries[th] == prev[th]);
            }
        }
    } else {
        let start = table[th].global_index;
        let last = own.len() - 1;
        let end = table[th].end_of_chain;
        assert(entries.contains_key(th));
        assert(entries[th].global_index == start);
        // Along this worker's chain, up to its end, no merge wrote.
        assert forall|j: nat| j < last && 0 <= #[trigger] chain_at(shared, start, j) < shared.len()
            implies shared[chain_at(shared, start, j)] == merged[chain_at(shared, start, j)] by {
            let ji = j as int;
            assert(chain_at(shared, start, ji as nat) == own[ji]);
            assert(ji as nat == j);
            if exists|pi: int, i2: int, th2: u64| #[trigger] overflow_writer(all, 0, p.partitions(), pi, i2, th2, own[j as int]) {
                let (pi, i2, th2) = choose|pi: int, i2: int, th2: u64| #[trigger] overflow_writer(all, 0, p.partitions(), pi, i2, th2,
                    own[j as int]);
                lemma_writer_on_chain(p, inputs, offsets, tables, all, shared, i, t, th, j as int, pi, i2, th2);
            }
        }
        lemma_chain_agree(shared, merged, start, last as nat);
        assert(chain_at(shared, start, last as nat) == end);
        assert(0 <= end < shared.len()) by {
            assert(chain_at(shared, start, (last + 1) as nat) == 0);
        }
        assert(shared[end as int] == 0) by {
            assert(chain_at(shared, start, (last + 1) as nat) == 0);
        }
        assert(chain_at(merged, start, last as nat) == end);
        // The chain of this worker, then what the merge linked to its end.
        assert forall|j: int| 0 <= j <= last implies #[trigger] chain_at(merged, start, j as nat) == occ[j] by {
            assert(chain_at(merged, start, j as nat) == chain_at(shared, start, j as nat));
            assert(occ[j] == own[j]);
        }
        let link = merged[end as int];
        assert(chain_at(merged, start, (last + 1) as nat) == link);
        if i > 0 && prev.contains_key(th) {
            assert(overflow_writer(all, 0, p.partitions(), t, i, th, end as int));
            let (pi, i2, th2) = choose|pi: int, i2: int, th2: u64| #[trigger] overflow_writer(all, 0, p.partitions(), pi, i2, th2,
                end as int) && merged[end as int] == overflow_written(all, pi, i2, th2);
            lemma_writer_on_chain(p, inputs, offsets, tables, all, shared, i, t, th, last, pi, i2, th2);
            assert(link == prev[th].global_index);
            assert forall|j: int| 0 <= j < occ.len() implies #[trigger] chain_at(merged, start, j as nat) == occ[j] by {
                if j > last {
                    lemma_chain_split(merged, start, (last + 1) as nat, (j - last - 1) as nat);
                    assert((last + 1 + (j - last - 1)) as nat == j as nat);
                    assert(occ[j] == earlier[j - last - 1]);
                }
            }
            lemma_chain_split(merged, start, (last + 1) as nat, earlier.len());
        } else {
            assert(earlier.len() == 0);
            assert(occ =~= own);
            assert forall|pi: int, i2: int, th2: u64| !#[trigger] overflow_writer(all, 0, p.partitions(), pi, i2, th2, end as int) by {
                if overflow_writer(all, 0, p.partitions(), pi, i2, th2, end as int) {
                    lemma_writer_on_chain(p, inputs, offsets, tables, all, shared, i, t, th, last, pi, i2, th2);
                }
            }
            assert(link == 0);
        }
    }
}

/// What the concurrent build gives back: after every worker built its
/// local tables into the shared overflow buffer and the merges linked the
/// workers' chains, following the overflow links from the merged entry of a
/// transformed hash visits the insertion index of every value, of any
/// input of any worker, routed to it, and then ends at 0. The merged table
/// of a partition holds a transformed hash exactly when some value was
/// routed to it.
pub proof fn lemma_merged_chains(
    p: LocalTablePartitioner,
    inputs: Seq<Seq<Seq<u64>>>,
    offsets: Seq<Seq<Offset>>,
    tables: Seq<Seq<Seq<LocalTable>>>,
    all: Seq<Arc<Vec<LocalTable>>>,
    shared: Seq<usize>,
    merged: Seq<usize>,
    t: int,
    th: u64,
)
    requires
        workers_built(p, inputs, offsets, tables, all, shared),
        chains_linked(all, p.partitions(), shared, merged),
        0 <= t < p.partitions(),
    ensures
        ({
            let occ = all_occurrences(p, inputs, offsets, inputs.len() as int, th, t);
            let entries = merged_upto(partition_tables(all, t), all.len() - 1);
            &&& entries.contains_key(th) == (occ.len() > 0)
            &&& entries.contains_key(th) ==> {
                &&& forall|j: int| 0 <= j < occ.len() ==> #[trigger] chain_at(merged, entries[th].global_index, j as nat) == occ[j]
                &&& chain_at(merged, entries[th].global_index, occ.len()) == 0
            }
        }),
{
    lemma_merged_prefix_chain(p, inputs, offsets, tables, all, shared, merged, t, th, inputs.len() - 1);
}

/// Every index that the occurrences over the first `w` workers list is one
/// past a value of an input of one of them routed to `(th, t)`.
proof fn lemma_all_occurrence_source(
    p: LocalTablePartitioner,
    inputs: Seq<Seq<Seq<u64>>>,
    offsets: Seq<Seq<Offset>>,
    w: int,
    th: u64,
    t: int,
    j: int,
)
    requires
        0 <= w <= inputs.len(),
        offsets.len() == inputs.len(),
        forall|x: int| 0 <= x < inputs.len() ==> (#[trigger] offsets[x]).len() == inputs[x].len(),
        0 <= j < all_occurrences(p, inputs, offsets, w, th, t).len(),
    ensures
        exists|x: int, a: int, q: int| 0 <= x < w && 0 <= a < inputs[x].len() && 0 <= q < inputs[x][a].len()
            && all_occurrences(p, inputs, offsets, w, th, t)[j] == #[trigger] copied_index(offsets[x][a], q),
    decreases w,
{
    let own = thread_occurrences(p, inputs[w - 1], offsets[w - 1], inputs[w - 1].len() as int, th, t);
    let rest = all_occurrences(p, inputs, offsets, w - 1, th, t);
    assert(all_occurrences(p, inputs, offsets, w, th, t) == own + rest);
    if j < own.len() {
        lemma_occurrence_source(p, inputs[w - 1], offsets[w - 1], inputs[w - 1].len() as int, th, t, j);
        let (a, q) = choose|a: int, q: int| 0 <= a < inputs[w - 1].len() && 0 <= q < inputs[w - 1][a].len()
            && own[j] == #[trigger] copied_index(offsets[w - 1][a], q)
            && p.spec_transformed_hash(inputs[w - 1][a][q]) == th && partition_of(p, inputs[w - 1][a][q]) == t;
        assert(all_occurrences(p, inputs, offsets, w, th, t)[j] == copied_index(offsets[w - 1][a], q));
    } else {
        lemma_all_occurrence_source(p, inputs, offsets, w - 1, th, t, j - own.len());
    }
}

/// The occurrences over the first `w` workers are distinct.
proof fn lemma_all_occurrences_distinct(
    p: LocalTablePartitioner,
    inputs: Seq<Seq<Seq<u64>>>,
    offsets: Seq<Seq<Offset>>,
    w: int,
    th: u64,
    t: int,
    j1: int,
    j2: int,
)
    requires
        0 <= w <= inputs.len(),
        offsets.len() == inputs.len(),
        forall|x: int| 0 <= x < inputs.len() ==> (#[trigger] offsets[x]).len() == inputs[x].len(),
        unique_insertion_indices(inputs, offsets),
        0 <= j1 < j2 < all_occurrences(p, inputs, offsets, w, th, t).len(),
    ensures
        all_occurrences(p, inputs, offsets, w, th, t)[j1] != all_occurrences(p, inputs, offsets, w, th, t)[j2],
    decreases w,
{
    let own = thread_occurrences(p, inputs[w - 1], offsets[w - 1], inputs[w - 1].len() as int, th, t);
    let rest = all_occurrences(p, inputs, offsets, w - 1, th, t);
    let occ = all_occurrences(p, inputs, offsets, w, th, t);
    assert(occ == own + rest);
    if j2 < own.len() {
        lemma_thread_occurrences_distinct(p, inputs, offsets, w - 1, inputs[w - 1].len() as int, th, t, j1, j2);
    } else if j1 >= own.len() {
        lemma_all_occurrences_distinct(p, inputs, offsets, w - 1, th, t, j1 - own.len(), j2 - own.len());
    } else {
        lemma_occurrence_source(p, inputs[w - 1], offsets[w - 1], inputs[w - 1].len() as int, th, t, j1);
        let (a1, q1) = choose|a: int, q: int| 0 <= a < inputs[w - 1].len() && 0 <= q < inputs[w - 1][a].len()
            && own[j1] == #[trigger] copied_index(offsets[w - 1][a], q)
            && p.spec_transformed_hash(inputs[w - 1][a][q]) == th && partition_of(p, inputs[w - 1][a][q]) == t;
        lemma_all_occurrence_source(p, inputs, offsets, w - 1, th, t, j2 - own.len());
        let (x2, a2, q2) = choose|x: int, a: int, q: int| 0 <= x < w - 1 && 0 <= a < inputs[x].len() && 0 <= q < inputs[x][a].len()
            && rest[j2 - own.len()] == #[trigger] copied_index(offsets[x][a], q);
        if occ[j1] == occ[j2] {
            assert(copied_index(offsets[w - 1][a1], q1) == copied_index(offsets[x2][a2], q2));
        }
    }
}

/// What a lookup gives back after the concurrent build: following the
/// overflow links from the merged entry of a transformed hash with
/// [`crate::lookup::follow_overflow_chain`] succeeds, and lists the value
/// index (one less than the insertion index) of every value, of any input
/// of any worker, routed to it.
pub proof fn lemma_merged_lookup(
    p: LocalTablePartitioner,
    inputs: Seq<Seq<Seq<u64>>>,
    offsets: Seq<Seq<Offset>>,
    tables: Seq<Seq<Seq<LocalTable>>>,
    all: Seq<Arc<Vec<LocalTable>>>,
    shared: Seq<usize>,
    merged: Seq<usize>,
    t: int,
    th: u64,
    r: Option<Vec<usize>>,
)
    requires
        workers_built(p, inputs, offsets, tables, all, shared),
        chains_linked(all, p.partitions(), shared, merged),
        0 <= t < p.partitions(),
        merged_upto(partition_tables(all, t), all.len() - 1).contains_key(th),
        ({
            let first = merged_upto(partition_tables(all, t), all.len() - 1)[th].global_index;
            &&& r is Some <==> exists|k: nat| k <= merged.len() && chain_ends_at(merged, first, k)
            &&& r matches Some(v) ==> exists|k: nat| k <= merged.len() && chain_ends_at(merged, first, k)
                && v@ == Seq::new(k, |j: int| (chain_at(merged, first, j as nat) - 1) as usize)
        }),
    ensures
        r matches Some(v) && v@ == all_occurrences(p, inputs, offsets, inputs.len() as int, th, t).map_values(
            |x: int| (x - 1) as usize),
{
    let w = inputs.len() as int;
    let occ = all_occurrences(p, inputs, offsets, w, th, t);
    let first = merged_upto(partition_tables(all, t), all.len() - 1)[th].global_index;
    lemma_merged_chains(p, inputs, offsets, tables, all, shared, merged, t, th);
    let c = occ.len();
    assert forall|x: int| 0 <= x < inputs.len() implies (#[trigger] offsets[x]).len() == inputs[x].len() by {
        assert(worker_built(p, inputs[x], offsets[x], tables[x], shared));
    }
    // Every index lies inside the buffer, past 0.
    assert forall|j: int| 0 <= j < c implies 0 < #[trigger] occ[j] < merged.len() by {
        lemma_all_occurrence_source(p, inputs, offsets, w, th, t, j);
        let (x, a, q) = choose|x: int, a: int, q: int| 0 <= x < w && 0 <= a < inputs[x].len() && 0 <= q < inputs[x][a].len()
            && occ[j] == #[trigger] copied_index(offsets[x][a], q);
        assert(worker_built(p, inputs[x], offsets[x], tables[x], shared));
    }
    // There are no more of them than the buffer has slots.
    assert(c <= merged.len()) by {
        let range = vstd::set_lib::set_int_range(1, merged.len() as int);
        vstd::set_lib::lemma_int_range(1, merged.len() as int);
        assert forall|j1: int, j2: int| 0 <= j1 < c && 0 <= j2 < c && j1 != j2 implies occ[j1] != occ[j2] by {
            if j1 < j2 {
                lemma_all_occurrences_distinct(p, inputs, offsets, w, th, t, j1, j2);
            } else {
                lemma_all_occurrences_distinct(p, inputs, offsets, w, th, t, j2, j1);
            }
        }
        assert(occ.no_duplicates());
        occ.unique_seq_to_set();
        assert(occ.to_set().subset_of(range));
        vstd::set_lib::lemma_len_subset(occ.to_set(), range);
    }
    let cn = c as nat;
    assert(chain_ends_at(merged, first, cn)) by {
        assert forall|j: nat| j < cn implies 0 < #[trigger] chain_at(merged, first, j) < merged.len() by {
            let ji = j as int;
            assert(chain_at(merged, first, ji as nat) == occ[ji]);
        }
    }
    let v = r->0;
    let k = choose|k: nat| k <= merged.len() && chain_ends_at(merged, first, k)
        && v@ == Seq::new(k, |j: int| (chain_at(merged, first, j as nat) - 1) as usize);
    // The chain ends only once.
    if k < cn {
        let ki = k as int;
        assert(chain_at(merged, first, ki as nat) == occ[ki]);
    } else if k > cn {
        assert(0 < chain_at(merged, first, cn) < merged.len());
    }
    assert(k == cn);
    assert forall|j: int| 0 <= j < c implies #[trigger] v@[j] == (occ[j] - 1) as usize by {
        assert(chain_at(merged, first, j as nat) == occ[j]);
    }
    assert(v@ =~= occ.map_values(|x: int| (x - 1) as usize));
}


/// What the whole partitioned build gives back: after every worker built its
/// local tables into the shared overflow buffer, the merges linked the
/// workers' chains, and the merged table of partition `t` was written into
/// `destination`, a transformed hash with some value routed to it has a slot
/// of `destination` holding its hash and an insertion index from which the
/// overflow links visit the insertion index of every such value, of any
/// input of any worker, and then end at 0.
pub proof fn lemma_built_table_lists_every_occurrence(
    p: LocalTablePartitioner,
    inputs: Seq<Seq<Seq<u64>>>,
    offsets: Seq<Seq<Offset>>,
    tables: Seq<Seq<Seq<LocalTable>>>,
    all: Seq<Arc<Vec<LocalTable>>>,
    shared: Seq<usize>,
    merged: Seq<usize>,
    destination: Seq<Option<(u64, usize)>>,
    written_tables: Seq<LocalTable>,
    w: int,
    t: int,
    th: u64,
)
    requires
        workers_built(p, inputs, offsets, tables, all, shared),
        chains_linked(all, p.partitions(), shared, merged),
        0 <= t < p.partitions(),
        0 <= w < written_tables.len(),
        local_table_entries(written_tables[w]) == merged_upto(partition_tables(all, t), all.len() - 1),
        holds_every_entry(destination, written_tables),
        all_occurrences(p, inputs, offsets, inputs.len() as int, th, t).len() > 0,
    ensures
        ({
            let occ = all_occurrences(p, inputs, offsets, inputs.len() as int, th, t);
            exists|s: int, first: usize| #![trigger destination[s], chain_at(merged, first, 0)] 0 <= s < destination.len()
                && destination[s] == Some((local_table_entries(written_tables[w])[th].hash, first))
                && (forall|j: int| 0 <= j < occ.len() ==> #[trigger] chain_at(merged, first, j as nat) == occ[j])
                && chain_at(merged, first, occ.len()) == 0
        }),
{
    lemma_merged_chains(p, inputs, offsets, tables, all, shared, merged, t, th);
    let entry = local_table_entries(written_tables[w])[th];
    assert(local_table_entries(written_tables[w]).contains_key(th));
    let s = choose|s: int| 0 <= s < destination.len() && destination[s] == Some((entry.hash, entry.global_index));
    assert(destination[s] == Some((entry.hash, entry.global_index)));
    assert(chain_at(merged, entry.global_index, 0) == entry.global_index);
}

} // verus!
