//! The state that the workers of the mutex-guarded build share: a table
//! from each hash to the insertion index of its latest value, and an
//! overflow buffer that links every insertion index to the one of the value
//! inserted with the same hash just before it, 0 ending a chain.
//!
//! Workers take turns on the state, so the values of one hash need not be
//! inserted in the order of their insertion indices: a chain follows the
//! order in which they were inserted, latest first.

use vstd::prelude::*;

verus! {

/// A `hashbrown::HashTable` of `(hash, insertion index)` pairs, each stored
/// with its hash as its hash.
#[verifier::external_body]
pub struct ChainTable {
    table: hashbrown::HashTable<(u64, usize)>,
}

/// The insertion index that a chain table holds for each hash.
pub uninterp spec fn chain_table_entries(table: ChainTable) -> Map<u64, usize>;

/// Whether `item` is stored under `hash`.
fn has_hash(item: &(u64, usize), hash: u64) -> (r: bool)
    ensures
        r == (item.0 == hash),
{
    item.0 == hash
}

/// An empty table, from `HashTable::new`.
#[verifier::external_body]
fn chain_table_new() -> (table: ChainTable)
    ensures
        chain_table_entries(table).is_empty(),
{
    ChainTable { table: hashbrown::HashTable::new() }
}

/// `HashTable::find` with `hash` as the hash and equality of hashes: the
/// insertion index stored under `hash`, if there is one.
#[verifier::external_body]
fn chain_table_find(table: &ChainTable, hash: u64) -> (r: Option<usize>)
    ensures
        r == (if chain_table_entries(*table).contains_key(hash) {
            Some(chain_table_entries(*table)[hash])
        } else {
            None
        }),
{
    table.table.find(hash, |item| has_hash(item, hash)).map(|item| item.1)
}

/// `HashTable::find_mut` with `hash` as the hash and equality of hashes:
/// stores `insertion_index` under `hash` and returns the index it replaced.
/// Where the table does not hold `hash`, it stays as it is and the result is
/// `None`.
#[verifier::external_body]
fn chain_table_replace(table: &mut ChainTable, hash: u64, insertion_index: usize) -> (r: Option<usize>)
    ensures
        chain_table_entries(*old(table)).contains_key(hash) ==> {
            &&& r == Some(chain_table_entries(*old(table))[hash])
            &&& chain_table_entries(*final(table)) == chain_table_entries(*old(table)).insert(hash, insertion_index)
        },
        !chain_table_entries(*old(table)).contains_key(hash) ==> {
            &&& r == None::<usize>
            &&& chain_table_entries(*final(table)) == chain_table_entries(*old(table))
        },
{
    match table.table.find_mut(hash, |item| has_hash(item, hash)) {
        Some(item) => Some(std::mem::replace(&mut item.1, insertion_index)),
        None => None,
    }
}

/// `HashTable::insert_unique` with the hash as its hash: stores
/// `insertion_index` under `hash`, which the table does not hold yet.
#[verifier::external_body]
fn chain_table_insert(table: &mut ChainTable, hash: u64, insertion_index: usize)
    requires
        !chain_table_entries(*old(table)).contains_key(hash),
    ensures
        chain_table_entries(*final(table)) == chain_table_entries(*old(table)).insert(hash, insertion_index),
{
    table.table.insert_unique(hash, (hash, insertion_index), |item| item.0);
}

/// The insertion index of the latest of the first `n` insertions with
/// `hash`, if there is one.
pub open spec fn latest_insertion(history: Seq<(u64, usize)>, hash: u64, n: nat) -> Option<usize>
    decreases n,
{
    if n == 0 {
        None
    } else if history[n - 1].0 == hash {
        Some(history[n - 1].1)
    } else {
        latest_insertion(history, hash, (n - 1) as nat)
    }
}

/// The value indices of the first `n` insertions with `hash`, latest first:
/// one less than each insertion index.
pub open spec fn inserted_values(history: Seq<(u64, usize)>, hash: u64, n: nat) -> Seq<usize>
    decreases n,
{
    if n == 0 {
        Seq::empty()
    } else if history[n - 1].0 == hash {
        seq![(history[n - 1].1 - 1) as usize] + inserted_values(history, hash, (n - 1) as nat)
    } else {
        inserted_values(history, hash, (n - 1) as nat)
    }
}

/// For every hash inserted so far, the insertion index of its latest value.
pub open spec fn latest_insertions(history: Seq<(u64, usize)>) -> Map<u64, usize> {
    Map::new(
        |hash: u64| latest_insertion(history, hash, history.len()) is Some,
        |hash: u64| latest_insertion(history, hash, history.len())->0,
    )
}

/// The link of an insertion: the index it follows, or 0.
pub open spec fn link_or_end(previous: Option<usize>) -> usize {
    match previous {
        Some(index) => index,
        None => 0,
    }
}

/// Appending an insertion leaves what the first `n` insertions say alone.
proof fn lemma_latest_unchanged_by_push(history: Seq<(u64, usize)>, entry: (u64, usize), hash: u64, n: nat)
    requires
        n <= history.len(),
    ensures
        latest_insertion(history.push(entry), hash, n) == latest_insertion(history, hash, n),
    decreases n,
{
    if n > 0 {
        lemma_latest_unchanged_by_push(history, entry, hash, (n - 1) as nat);
    }
}

/// The latest of the first `n` insertions with `hash` stands at some
/// position `t`, and no value with `hash` was inserted between `t` and `n`.
proof fn lemma_latest_position(history: Seq<(u64, usize)>, hash: u64, n: nat) -> (t: int)
    requires
        n <= history.len(),
        latest_insertion(history, hash, n) is Some,
    ensures
        0 <= t < n,
        history[t].0 == hash,
        history[t].1 == latest_insertion(history, hash, n)->0,
        inserted_values(history, hash, n) == inserted_values(history, hash, (t + 1) as nat),
    decreases n,
{
    if history[n - 1].0 == hash {
        (n - 1) as int
    } else {
        lemma_latest_position(history, hash, (n - 1) as nat)
    }
}

/// Without an insertion with `hash` among the first `n`, there is no value.
proof fn lemma_no_latest_no_values(history: Seq<(u64, usize)>, hash: u64, n: nat)
    requires
        n <= history.len(),
        latest_insertion(history, hash, n) is None,
    ensures
        inserted_values(history, hash, n) == Seq::<usize>::empty(),
    decreases n,
{
    if n > 0 {
        lemma_no_latest_no_values(history, hash, (n - 1) as nat);
    }
}

/// The table and the overflow buffer of a mutex-guarded build, with the
/// insertions made so far, in order, as `(hash, insertion index)` pairs.
pub struct MutexMapState {
    map: ChainTable,
    overflow: Vec<usize>,
    history: Ghost<Seq<(u64, usize)>>,
}

impl View for MutexMapState {
    type V = (Map<u64, usize>, Seq<usize>, Seq<(u64, usize)>);

    closed spec fn view(&self) -> (Map<u64, usize>, Seq<usize>, Seq<(u64, usize)>) {
        (chain_table_entries(self.map), self.overflow@, self.history@)
    }
}

impl MutexMapState {
    /// Slot 0 ends every chain; every insertion used its own slot past 0;
    /// the slot of each insertion links to the latest insertion with the
    /// same hash before it; a slot no insertion used holds 0; and the table
    /// holds the latest insertion of every hash.
    pub closed spec fn well_formed(self) -> bool {
        let history = self.history@;
        let overflow = self.overflow@;
        &&& overflow.len() >= 1
        &&& overflow[0] == 0
        &&& forall|t: int| 0 <= t < history.len() ==> 0 < #[trigger] history[t].1 < overflow.len()
        &&& forall|s: int, t: int|
            0 <= s < t < history.len() ==> #[trigger] history[s].1 != #[trigger] history[t].1
        &&& forall|t: int|
            0 <= t < history.len() ==> overflow[#[trigger] history[t].1 as int] == link_or_end(
                latest_insertion(history, history[t].0, t as nat),
            )
        &&& forall|i: int|
            0 < i < overflow.len() && #[trigger] overflow[i] != 0 ==> exists|t: int|
                0 <= t < history.len() && #[trigger] history[t].1 == i
        &&& chain_table_entries(self.map) == latest_insertions(history)
    }

    /// An empty table, and an overflow buffer holding only the 0 that ends
    /// every chain.
    pub fn new() -> (r: Self)
        ensures
            r.well_formed(),
            r@.0.is_empty(),
            r@.1 == seq![0usize],
            r@.2 == Seq::<(u64, usize)>::empty(),
    {
        let mut overflow: Vec<usize> = Vec::new();
        overflow.push(0);
        let r = Self { map: chain_table_new(), overflow, history: Ghost(Seq::empty()) };
        assert(r.overflow@ =~= seq![0usize]);
        assert(latest_insertions(r.history@) =~= chain_table_entries(r.map));
        r
    }

    /// Makes room in the overflow buffer for a batch of `len` values and
    /// returns the insertion index of its first value: the length the buffer
    /// had.
    pub fn allocate_batch(&mut self, len: usize) -> (r: usize)
        requires
            old(self).well_formed(),
            old(self)@.1.len() + len <= usize::MAX,
        ensures
            final(self).well_formed(),
            r == old(self)@.1.len(),
            final(self)@.0 == old(self)@.0,
            final(self)@.1 == old(self)@.1 + Seq::new(len as nat, |i: int| 0usize),
            final(self)@.2 == old(self)@.2,
    {
        let offset = self.overflow.len();
        let ghost before = self.overflow@;
        let mut added: usize = 0;
        while added < len
            invariant
                added <= len,
                offset == before.len(),
                offset + len <= usize::MAX,
                self.overflow@ == before + Seq::new(added as nat, |i: int| 0usize),
                self.history == old(self).history,
                chain_table_entries(self.map) == chain_table_entries(old(self).map),
                before == old(self).overflow@,
                old(self).well_formed(),
            decreases len - added,
        {
            self.overflow.push(0);
            added += 1;
            assert(self.overflow@ =~= before + Seq::new(added as nat, |i: int| 0usize));
        }
        proof {
            let history = self.history@;
            let overflow = self.overflow@;
            assert forall|t: int| 0 <= t < history.len() implies overflow[#[trigger] history[t].1 as int]
                == link_or_end(latest_insertion(history, history[t].0, t as nat)) by {
                assert(overflow[history[t].1 as int] == before[history[t].1 as int]);
            }
            assert forall|i: int| 0 < i < overflow.len() && #[trigger] overflow[i] != 0 implies exists|t: int|
                0 <= t < history.len() && #[trigger] history[t].1 == i by {
                assert(i < before.len());
                assert(before[i] != 0);
            }
        }
        offset
    }

    /// The insertion index of the latest value with `hash`, if there is one.
    pub fn latest(&self, hash: u64) -> (r: Option<usize>)
        ensures
            r == (if self@.0.contains_key(hash) { Some(self@.0[hash]) } else { None }),
    {
        chain_table_find(&self.map, hash)
    }

    /// Records that the value with insertion index `insertion_index` has
    /// `hash`: the table holds `insertion_index` for `hash` from now on, and
    /// where it held an earlier insertion for `hash`, the overflow buffer
    /// links `insertion_index` to it. Each insertion index is recorded once.
    pub fn insert(&mut self, hash: u64, insertion_index: usize)
        requires
            old(self).well_formed(),
            0 < insertion_index < old(self)@.1.len(),
            forall|t: int| 0 <= t < old(self)@.2.len() ==> #[trigger] old(self)@.2[t].1 != insertion_index,
        ensures
            final(self).well_formed(),
            final(self)@.0 == old(self)@.0.insert(hash, insertion_index),
            final(self)@.1 == (if old(self)@.0.contains_key(hash) {
                old(self)@.1.update(insertion_index as int, old(self)@.0[hash])
            } else {
                old(self)@.1
            }),
            final(self)@.2 == old(self)@.2.push((hash, insertion_index)),
    {
        let ghost history = self.history@;
        let ghost before = self.overflow@;
        let ghost entry = (hash, insertion_index);
        let ghost old_map = chain_table_entries(self.map);
        assert(forall|t: int| 0 <= t < history.len() ==> #[trigger] history[t].1 != insertion_index) by {
            assert(history == old(self)@.2);
        }
        match chain_table_replace(&mut self.map, hash, insertion_index) {
            Some(existing) => {
                self.overflow.set(insertion_index, existing);
            },
            None => {
                proof {
                    if before[insertion_index as int] != 0 {
                        let t = choose|t: int| 0 <= t < history.len() && #[trigger] history[t].1 == insertion_index;
                        assert(history[t].1 == insertion_index);
                    }
                }
                chain_table_insert(&mut self.map, hash, insertion_index);
            },
        }
        proof {
            self.history@ = history.push(entry);
            let new_history = self.history@;
            let overflow = self.overflow@;
            assert forall|h: u64, n: nat| n <= history.len() implies #[trigger] latest_insertion(new_history, h, n)
                == latest_insertion(history, h, n) by {
                lemma_latest_unchanged_by_push(history, entry, h, n);
            }
            assert(latest_insertion(new_history, hash, new_history.len()) == Some(insertion_index));
            assert(chain_table_entries(self.map) =~= latest_insertions(new_history)) by {
                assert forall|h: u64| h != hash implies latest_insertion(new_history, h, new_history.len())
                    == latest_insertion(history, h, history.len()) by {
                    assert(latest_insertion(new_history, h, history.len()) == latest_insertion(history, h, history.len()));
                }
            }
            assert forall|t: int| 0 <= t < new_history.len() implies 0 < #[trigger] new_history[t].1 < overflow.len() by {
                if t < history.len() {
                    assert(new_history[t] == history[t]);
                }
            }
            assert forall|s: int, t: int| 0 <= s < t < new_history.len() implies #[trigger] new_history[s].1
                != #[trigger] new_history[t].1 by {
                assert(new_history[s] == history[s]);
                assert(history[s].1 != insertion_index);
                if t < history.len() {
                    assert(new_history[t] == history[t]);
                }
            }
            assert forall|t: int| 0 <= t < new_history.len() implies overflow[#[trigger] new_history[t].1 as int]
                == link_or_end(latest_insertion(new_history, new_history[t].0, t as nat)) by {
                if t < history.len() {
                    assert(new_history[t] == history[t]);
                    assert(history[t].1 != insertion_index);
                    assert(overflow[history[t].1 as int] == before[history[t].1 as int]);
                } else {
                    assert(new_history[t] == entry);
                    assert(latest_insertion(new_history, hash, history.len()) == latest_insertion(history, hash, history.len()));
                    assert(old_map == latest_insertions(history));
                    if old_map.contains_key(hash) {
                        assert(latest_insertion(history, hash, history.len()) == Some(old_map[hash]));
                    } else {
                        assert(latest_insertion(history, hash, history.len()) is None);
                    }
                }
            }
            assert forall|i: int| 0 < i < overflow.len() && #[trigger] overflow[i] != 0 implies exists|t: int|
                0 <= t < new_history.len() && #[trigger] new_history[t].1 == i by {
                if i == insertion_index {
                    assert(new_history[history.len() as int].1 == i);
                } else {
                    assert(before[i] != 0);
                    let t = choose|t: int| 0 <= t < history.len() && #[trigger] history[t].1 == i;
                    assert(new_history[t] == history[t]);
                }
            }
        }
    }

    /// The value indices of every value recorded with `hash`, in the reverse
    /// of the order in which they were recorded: one less than each insertion
    /// index of its chain. Empty when no value has `hash`.
    pub fn get(&self, hash: u64) -> (r: Vec<usize>)
        requires
            self.well_formed(),
        ensures
            r@ == inserted_values(self@.2, hash, self@.2.len()),
    {
        let ghost history = self.history@;
        let ghost n = history.len();
        match chain_table_find(&self.map, hash) {
            None => {
                proof {
                    assert(!latest_insertions(history).contains_key(hash));
                    lemma_no_latest_no_values(history, hash, n);
                }
                Vec::new()
            },
            Some(index) => {
                let ghost mut t = lemma_latest_position(history, hash, n);
                let mut output: Vec<usize> = Vec::new();
                output.push(index - 1);
                let mut next = self.overflow[index];
                proof {
                    assert(output@ + inserted_values(history, hash, t as nat) =~= inserted_values(history, hash, n));
                }
                while next != 0
                    invariant
                        self.well_formed(),
                        history == self.history@,
                        n == history.len(),
                        0 <= t < n,
                        next == link_or_end(latest_insertion(history, hash, t as nat)),
                        output@ + inserted_values(history, hash, t as nat) == inserted_values(history, hash, n),
                    decreases t,
                {
                    let ghost previous = lemma_latest_position(history, hash, t as nat);
                    proof {
                        assert(inserted_values(history, hash, t as nat) == seq![(next - 1) as usize]
                            + inserted_values(history, hash, previous as nat));
                    }
                    output.push(next - 1);
                    next = self.overflow[next];
                    proof {
                        assert(output@ + inserted_values(history, hash, previous as nat) =~= inserted_values(history, hash, n));
                        t = previous;
                    }
                }
                proof {
                    if latest_insertion(history, hash, t as nat) is Some {
                        let previous = lemma_latest_position(history, hash, t as nat);
                        assert(0 < history[previous].1);
                    }
                    lemma_no_latest_no_values(history, hash, t as nat);
                    assert(output@ =~= inserted_values(history, hash, n));
                }
                output
            },
        }
    }
}

} // verus!
