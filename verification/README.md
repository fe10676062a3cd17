# hashjoin

Building blocks of a hash join, verified with Verus: open-addressing hash
tables keyed by precomputed 64-bit hashes, the tag groups and bit masks that
their lookups scan, and the bookkeeping of a build that several workers share.

## Layout

- `src/` — the verified library.
  - `tag.rs`, `group.rs`, `lanes.rs`, `intrinsics.rs`, `bit_mask.rs`,
    `bit_mask_8.rs`, `bit_facts.rs`, `const_group_iterator.rs`: tags, groups
    of tags, byte-lane comparisons and the masks that list their matches.
  - `probe_sequence.rs`, `power_of_two.rs`: how lookups step from group to
    group, and the arithmetic of power-of-two tables.
  - `fixed_table.rs`, `fixed_table_n.rs`, `ideal_probe_chains.rs`: three
    fixed-capacity tables, their writes, lookups, bulk lookups and lookup
    statistics, with the laws that a write is read back and that a probe
    reaches every group.
  - `concurrent_build.rs`, `local_tables.rs`, `histogram_local_accumulate.rs`,
    `destination.rs`, `chains.rs`, `lookup.rs`, `global_index_tracker.rs`,
    `utils.rs`, `input.rs`, `bypass_hasher.rs`, `atomic.rs`: the partitioned
    build — routing hashes to partitions, per-worker local tables and overflow
    chains, merging the partitions, replaying the writes into the destination
    table, and following the chains back; `chains.rs` proves that following
    them lists every value of a hash.
  - `mutex_map.rs`: the state that the workers of the mutex-guarded baseline
    share — a `hashbrown` table of the latest insertion of each hash and an
    overflow buffer of links — whose lookups list every value recorded with a
    hash, latest first, whatever order the workers took turns in.
- `tests/` — tests of the library.
- `app/` — the runtime around it: shared cells and locks, the async loops of
  the workers, hasher adapters, and the locking loop of the mutex-guarded baseline builder.
