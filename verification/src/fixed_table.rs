//! A fixed-capacity open-addressing hash table over a group strategy.
//!
//! The table has a power-of-two number of slots. Each slot has a tag byte
//! and holds a stored hash and a value; the stored hash is the hash with its
//! top bit set, so that an occupied slot never stores zero. The tags of the
//! first group are repeated after the last slot, so that a group may start at
//! any slot and run past the end of the table.
//!
//! A key is the pair of the tag and the stored hash of a hash: two hashes
//! that agree on both are the same key to the table.

use vstd::prelude::*;
use crate::atomic::AsAtomic;
use crate::group::{GroupStrategy, IterableGroupStrategy, BulkGroupStrategy, BulkGroupStrategy32, BulkGroupStrategyN};
use crate::probe_sequence::{ProbeSequence, probe_at, probe_slot_at};
use crate::power_of_two::{power_of_two, lemma_mask_is_mod, lemma_mod_usize_range_then_mod, usize_range, next_pow2,
    lemma_next_pow2, next_power_of_two, lemma_pow2_div};
use vstd::arithmetic::power2::pow2;

verus! {

/// Set in every stored hash, so that an occupied slot never stores zero.
pub const HASH_OCCUPIED_BIT: u64 = 0x8000_0000_0000_0000;

/// The hash as a slot stores it.
pub open spec fn storable_hash(hash: u64) -> u64 {
    hash | 0x8000_0000_0000_0000u64
}

/// The key under which a table of strategy `G` keeps `hash`.
pub open spec fn table_key<G: GroupStrategy>(hash: u64) -> (u8, u64) {
    (G::spec_tag(hash), storable_hash(hash))
}

/// The first slot of the group and the probe state after `step` steps of a
/// probe for `key`.
pub open spec fn key_probe<G: GroupStrategy>(key: (u8, u64), bucket_mask: usize, step: nat) -> (usize, usize)
    decreases step,
{
    if step == 0 {
        (<G::ProbeSeq as ProbeSequence>::spec_start_index(key.1, bucket_mask),
            <G::ProbeSeq as ProbeSequence>::spec_initial_stride(key.1, bucket_mask))
    } else {
        let previous = key_probe::<G>(key, bucket_mask, (step - 1) as nat);
        <G::ProbeSeq as ProbeSequence>::spec_next(previous.0, key.0, previous.1, bucket_mask)
    }
}

/// The value a write reports as replaced: none for a new key or for the
/// empty value.
pub open spec fn previous_value<V: AsAtomic>(contents: Map<(u8, u64), V>, key: (u8, u64)) -> Option<V> {
    if contents.contains_key(key) && contents[key] != V::spec_empty() {
        Some(contents[key])
    } else {
        None
    }
}

/// A write stored `value` under `key`, replacing `prev`.
pub open spec fn written_under<V: AsAtomic>(before: Map<(u8, u64), V>, after: Map<(u8, u64), V>, key: (u8, u64), value: V,
    prev: Option<V>) -> bool {
    after == before.insert(key, value) && prev == previous_value(before, key)
}

proof fn lemma_storable(hash: u64)
    ensures
        hash | 0x8000_0000_0000_0000u64 != 0,
        (hash | 0x8000_0000_0000_0000u64) | 0x8000_0000_0000_0000u64 == hash | 0x8000_0000_0000_0000u64,
{
    crate::bit_facts::lemma_stored_hashes(hash, 0);
}

/// The storage of a table: tags, stored hashes and values, with the keys it
/// holds and where each of them sits.
struct Inner<V, G> {
    bucket_mask: usize,
    tags: Vec<u8>,
    data: Vec<(u64, V)>,
    contents: Ghost<Map<(u8, u64), V>>,
    locations: Ghost<Map<(u8, u64), (int, nat, int)>>,
    phantom: core::marker::PhantomData<G>,
}

impl<V: AsAtomic, G: GroupStrategy> Inner<V, G> {
    spec fn cap(&self) -> int {
        self.bucket_mask + 1
    }

    spec fn group_count(&self) -> int {
        self.cap() / G::spec_group_size()
    }

    /// The slot that position `p` of the group starting at slot `g` falls into.
    spec fn slot(&self, g: int, p: int) -> int {
        (g + p) % self.cap()
    }

    /// Every slot of the group starting at `g` is occupied.
    spec fn group_full(&self, g: int) -> bool {
        forall|p: int| 0 <= p < G::spec_group_size() ==> #[trigger] self.data@[self.slot(g, p)].0 != 0
    }

    spec fn slot_ok(&self, i: int) -> bool {
        let stored = self.data@[i].0;
        let value = self.data@[i].1;
        if stored == 0 {
            G::spec_is_empty(self.tags@[i]) && value == V::spec_empty()
        } else {
            let key = (self.tags@[i], stored);
            &&& self.contents@.contains_key(key)
            &&& self.contents@[key] == value
            &&& self.locations@.contains_key(key)
            &&& self.locations@[key].0 == i
        }
    }

    spec fn key_ok(&self, key: (u8, u64)) -> bool {
        let (i, n, p) = self.locations@[key];
        &&& 0 <= i < self.cap()
        &&& n < self.group_count()
        &&& 0 <= p < G::spec_group_size()
        &&& self.slot(key_probe::<G>(key, self.bucket_mask, n).0 as int, p) == i
        &&& self.data@[i].0 == key.1
        &&& self.tags@[i] == key.0
        &&& key.1 != 0
        &&& forall|j: nat| j < n ==> #[trigger] self.group_full(key_probe::<G>(key, self.bucket_mask, j).0 as int)
    }

    spec fn wf(&self) -> bool {
        let cap = self.cap();
        let size = G::spec_group_size();
        &&& power_of_two(cap)
        &&& power_of_two(self.group_count())
        &&& cap == self.group_count() * size
        &&& cap + size <= usize::MAX
        &&& self.bucket_mask < 0x8000_0000_0000_0000u64
        &&& self.tags@.len() == cap + size
        &&& self.data@.len() == cap
        &&& forall|j: int| 0 <= j < size ==> #[trigger] self.tags@[cap + j] == self.tags@[j]
        &&& forall|i: int| 0 <= i < cap ==> #[trigger] self.slot_ok(i)
        &&& self.contents@.dom() == self.locations@.dom()
        &&& forall|key: (u8, u64)| #[trigger] self.locations@.contains_key(key) ==> self.key_ok(key)
    }

    /// No occupied slot carries an empty tag.
    spec fn clean(&self) -> bool {
        forall|i: int| 0 <= i < self.cap() && #[trigger] self.data@[i].0 != 0 ==> !G::spec_is_empty(self.tags@[i])
    }

    /// Every group on the probe path of `hash` is full.
    spec fn probe_full(&self, hash: u64) -> bool {
        forall|j: nat| j < self.group_count() ==> #[trigger] self.group_full(key_probe::<G>(table_key::<G>(hash), self.bucket_mask, j).0 as int)
    }

    proof fn lemma_shape_facts(&self)
        requires
            self.wf(),
        ensures
            G::spec_group_size() == 4 || G::spec_group_size() == 8 || G::spec_group_size() == 16,
            self.cap() >= G::spec_group_size(),
            self.group_count() >= 1,
            self.cap() == self.bucket_mask + 1,
    {
        G::lemma_shape();
        assert(self.group_count() >= 1) by {
            assert(power_of_two(self.group_count()));
            let k = choose|k: nat| pow2(k) == self.group_count();
            vstd::arithmetic::power2::lemma_pow2_pos(k);
        }
        assert(self.cap() >= G::spec_group_size()) by (nonlinear_arith)
            requires
                self.cap() == self.group_count() * G::spec_group_size(),
                self.group_count() >= 1,
                G::spec_group_size() >= 4;
    }

    /// The tag at position `q` of a group loaded at slot `g` is the tag of
    /// the slot that the position falls into.
    proof fn lemma_group_tag(&self, g: int, q: int)
        requires
            self.wf(),
            0 <= g < self.cap(),
            0 <= q < G::spec_group_size(),
        ensures
            0 <= self.slot(g, q) < self.cap(),
            self.tags@[g + q] == self.tags@[self.slot(g, q)],
            g + q < self.cap() ==> self.slot(g, q) == g + q,
            g + q >= self.cap() ==> self.slot(g, q) == g + q - self.cap(),
    {
        self.lemma_shape_facts();
        let cap = self.cap();
        if g + q < cap {
            vstd::arithmetic::div_mod::lemma_small_mod((g + q) as nat, cap as nat);
        } else {
            vstd::arithmetic::div_mod::lemma_mod_sub_multiples_vanish(g + q, cap);
            vstd::arithmetic::div_mod::lemma_small_mod((g + q - cap) as nat, cap as nat);
            assert(self.tags@[cap + (g + q - cap)] == self.tags@[g + q - cap]);
        }
    }

    /// The slots that hold a value.
    spec fn occupied_slots(&self) -> Set<int> {
        Set::new(|i: int| 0 <= i < self.cap() && self.data@[i].0 != 0)
    }

    /// The key stored in slot `i`.
    spec fn slot_key(&self, i: int) -> (u8, u64) {
        (self.tags@[i], self.data@[i].0)
    }

    /// Each stored key has a slot of its own and each occupied slot holds a
    /// stored key, so the table holds as many keys as it has occupied slots.
    proof fn lemma_key_count(&self)
        requires
            self.wf(),
        ensures
            self.contents@.dom().finite(),
            self.occupied_slots().finite(),
            self.contents@.len() == self.occupied_slots().len(),
            self.contents@.len() <= self.cap(),
    {
        let occupied = self.occupied_slots();
        let range = vstd::set_lib::set_int_range(0, self.cap());
        let key_of = |i: int| self.slot_key(i);
        self.lemma_shape_facts();
        vstd::set_lib::lemma_int_range(0, self.cap());
        assert(occupied.subset_of(range));
        vstd::set_lib::lemma_len_subset(occupied, range);
        assert forall|i1: int, i2: int| occupied.contains(i1) && occupied.contains(i2) && #[trigger] key_of(i1) == #[trigger] key_of(i2)
            implies i1 == i2 by {
            assert(self.slot_ok(i1));
            assert(self.slot_ok(i2));
        }
        assert(vstd::relations::injective_on(key_of, occupied));
        assert forall|key: (u8, u64)| #[trigger] occupied.map(key_of).contains(key) <==> self.contents@.dom().contains(key) by {
            if occupied.map(key_of).contains(key) {
                let i = choose|i: int| occupied.contains(i) && key_of(i) == key;
                assert(self.slot_ok(i));
            }
            if self.contents@.dom().contains(key) {
                assert(self.locations@.contains_key(key));
                assert(self.key_ok(key));
                let i = self.locations@[key].0;
                assert(occupied.contains(i));
                assert(key_of(i) == key);
            }
        }
        assert(occupied.map(key_of) =~= self.contents@.dom());
        vstd::set_lib::lemma_map_size(occupied, self.contents@.dom(), key_of);
    }

    /// A table that holds as many keys as it has slots has every slot
    /// occupied, so every probe finds every group full.
    proof fn lemma_full_table_full_probe(&self, hash: u64)
        requires
            self.wf(),
            self.contents@.len() == self.cap(),
        ensures
            self.probe_full(hash),
    {
        self.lemma_shape_facts();
        self.lemma_key_count();
        let range = vstd::set_lib::set_int_range(0, self.cap());
        vstd::set_lib::lemma_int_range(0, self.cap());
        vstd::set_lib::lemma_subset_equality(self.occupied_slots(), range);
        let key = table_key::<G>(hash);
        assert forall|j: nat| j < self.group_count() implies #[trigger] self.group_full(key_probe::<G>(key, self.bucket_mask, j).0 as int) by {
            let g = key_probe::<G>(key, self.bucket_mask, j).0 as int;
            assert forall|p: int| 0 <= p < G::spec_group_size() implies #[trigger] self.data@[self.slot(g, p)].0 != 0 by {
                vstd::arithmetic::div_mod::lemma_mod_bound(g + p, self.cap());
                assert(range.contains(self.slot(g, p)));
            }
        }
    }

    /// A probe for a key steps as the probe sequence of the strategy does.
    proof fn lemma_key_probe_is_probe_at(key: (u8, u64), bucket_mask: usize, j: nat)
        ensures
            key_probe::<G>(key, bucket_mask, j) == probe_at::<G::ProbeSeq>(key.1, key.0, bucket_mask, j),
        decreases j,
    {
        if j > 0 {
            Self::lemma_key_probe_is_probe_at(key, bucket_mask, (j - 1) as nat);
        }
    }

    /// Every probe that finds as many full groups as the table has covers
    /// the whole table: the table holds as many keys as it has slots.
    proof fn lemma_full_probe_full_table(&self, hash: u64)
        requires
            self.wf(),
            self.probe_full(hash),
        ensures
            self.contents@.len() == self.cap(),
    {
        self.lemma_shape_facts();
        self.lemma_key_count();
        let key = table_key::<G>(hash);
        let mask = self.bucket_mask;
        let range = vstd::set_lib::set_int_range(0, self.cap());
        vstd::set_lib::lemma_int_range(0, self.cap());
        assert forall|i: int| #[trigger] range.contains(i) implies self.occupied_slots().contains(i) by {
            G::lemma_probe_covers(key.1, key.0, mask, i);
            let (j, p) = choose|j: nat, p: int| j < (mask + 1) / G::spec_group_size() && 0 <= p < G::spec_group_size()
                && #[trigger] probe_slot_at::<G::ProbeSeq>(key.1, key.0, mask, j, p) == i;
            Self::lemma_key_probe_is_probe_at(key, mask, j);
            let g = key_probe::<G>(key, mask, j).0 as int;
            assert(self.group_full(g));
            assert(self.slot(g, p) == i);
            assert(self.data@[self.slot(g, p)].0 != 0);
        }
        assert(self.occupied_slots() =~= range);
    }

    /// The slot of a group position, computed by masking.
    proof fn lemma_slot_mask(&self, g: usize, q: usize)
        requires
            self.wf(),
            g < self.cap(),
            q < G::spec_group_size(),
        ensures
            ((g + q) as usize) & self.bucket_mask == self.slot(g as int, q as int),
    {
        self.lemma_shape_facts();
        lemma_mask_is_mod((g + q) as usize, self.cap() as usize);
    }

    /// Tags and values that do not touch the stored hashes keep every group
    /// as full as it was.
    proof fn lemma_same_hashes_same_full(&self, other: &Self, g: int)
        requires
            self.bucket_mask == other.bucket_mask,
            self.data@.len() == other.data@.len(),
            forall|i: int| 0 <= i < self.data@.len() ==> #[trigger] self.data@[i].0 == other.data@[i].0,
            self.data@.len() == self.cap(),
            self.cap() > 0,
        ensures
            self.group_full(g) == other.group_full(g),
    {
        if self.group_full(g) {
            assert forall|p: int| 0 <= p < G::spec_group_size() implies #[trigger] other.data@[other.slot(g, p)].0 != 0 by {
                assert(self.data@[self.slot(g, p)].0 != 0);
            }
        }
        if other.group_full(g) {
            assert forall|p: int| 0 <= p < G::spec_group_size() implies #[trigger] self.data@[self.slot(g, p)].0 != 0 by {
                assert(other.data@[other.slot(g, p)].0 != 0);
            }
        }
    }

    /// An empty table of `capacity` slots.
    fn new(capacity: usize) -> (r: Self)
        requires
            power_of_two(capacity as int),
            power_of_two((capacity as int) / G::spec_group_size()),
            (capacity as int) % G::spec_group_size() == 0,
            capacity + G::spec_group_size() <= usize::MAX,
            capacity <= 0x8000_0000_0000_0000u64,
        ensures
            r.wf(),
            r.clean(),
            r.contents@ == Map::<(u8, u64), V>::empty(),
            r.cap() == capacity,
            forall|i: int| 0 <= i < r.cap() ==> r.data@[i].0 == 0 && G::spec_is_empty(#[trigger] r.tags@[i]),
    {
        proof {
            G::lemma_shape();
        }
        let group_size = G::group_size();
        let empty_tag = G::empty_tag();
        let tag_count = capacity + group_size;
        let mut tags: Vec<u8> = Vec::new();
        let mut i: usize = 0;
        while i < tag_count
            invariant
                i <= tag_count,
                tags@.len() == i,
                forall|j: int| 0 <= j < i ==> #[trigger] tags@[j] == empty_tag,
            decreases tag_count - i,
        {
            tags.push(empty_tag);
            i += 1;
        }
        let empty_value = V::empty();
        let mut data: Vec<(u64, V)> = Vec::new();
        let mut i: usize = 0;
        while i < capacity
            invariant
                i <= capacity,
                data@.len() == i,
                forall|j: int| 0 <= j < i ==> #[trigger] data@[j] == (0u64, empty_value),
            decreases capacity - i,
        {
            data.push((0u64, empty_value));
            i += 1;
        }
        proof {
            assert(capacity > 0) by {
                let k = choose|k: nat| pow2(k) == capacity as int;
                vstd::arithmetic::power2::lemma_pow2_pos(k);
            }
        }
        let r = Self {
            bucket_mask: capacity - 1,
            tags,
            data,
            contents: Ghost(Map::empty()),
            locations: Ghost(Map::empty()),
            phantom: core::marker::PhantomData,
        };
        proof {
            assert(capacity == ((capacity as int) / G::spec_group_size()) * G::spec_group_size()) by {
                vstd::arithmetic::div_mod::lemma_fundamental_div_mod(capacity as int, G::spec_group_size());
            }
            assert forall|j: int| 0 <= j < G::spec_group_size() implies #[trigger] r.tags@[r.cap() + j] == r.tags@[j] by {
                assert(r.tags@[r.cap() + j] == empty_tag);
            }
            assert forall|i: int| 0 <= i < r.cap() implies #[trigger] r.slot_ok(i) by {
                assert(r.data@[i] == (0u64, empty_value));
                assert(r.tags@[i] == empty_tag);
            }
            assert(r.contents@.dom() =~= r.locations@.dom());
        }
        r
    }

    /// Reports the empty value as no value.
    fn ignore_default_value(value: V) -> (r: Option<V>)
        ensures
            r == (if value == V::spec_empty() { None } else { Some(value) }),
    {
        if value.is_empty_value() {
            None
        } else {
            Some(value)
        }
    }

    /// The number of slots.
    fn cell_count(&self) -> (r: usize)
        requires
            self.wf(),
        ensures
            r == self.cap(),
    {
        proof {
            self.lemma_shape_facts();
        }
        self.bucket_mask + 1
    }

    /// The tag and the stored hash of `hash`.
    fn prepare_hash(hash: u64) -> (r: (u8, u64))
        ensures
            r == table_key::<G>(hash),
    {
        let search_tag = G::get_tag(hash);
        let storable_hash = hash | HASH_OCCUPIED_BIT;
        (search_tag, storable_hash)
    }

    /// Continues a lookup of `key` from the group that the probe reaches
    /// after `first_step` steps, stopping at the first group with an empty
    /// slot, or once the probe has visited as many groups as the table has.
    #[verifier::loop_isolation(false)]
    fn probe_from(&self, search_tag: u8, search_hash: u64, start_index: usize, start_stride: usize, first_step: usize) -> (r: Option<&V>)
        requires
            self.wf(),
            search_hash != 0,
            first_step < self.group_count(),
            (start_index, start_stride) == key_probe::<G>((search_tag, search_hash), self.bucket_mask, first_step as nat),
        ensures
            r matches Some(v) ==> self.contents@.contains_key((search_tag, search_hash)) && *v == self.contents@[(search_tag, search_hash)],
            self.clean() && self.contents@.contains_key((search_tag, search_hash))
                && first_step <= self.locations@[(search_tag, search_hash)].1 ==> r is Some,
    {
        proof {
            self.lemma_shape_facts();
        }
        let ghost key = (search_tag, search_hash);
        let mask = self.bucket_mask;
        let group_count = (mask + 1) / G::group_size();
        let mut index = start_index;
        let mut stride = start_stride;
        let mut attempts = first_step;
        proof {
            <G::ProbeSeq as ProbeSequence>::lemma_in_table(search_hash, 0, search_tag, 0, mask);
            if first_step > 0 {
                let previous = key_probe::<G>(key, mask, (first_step - 1) as nat);
                <G::ProbeSeq as ProbeSequence>::lemma_in_table(search_hash, previous.0, search_tag, previous.1, mask);
            }
        }
        loop
            invariant
                self.wf(),
                attempts < group_count,
                group_count == self.group_count(),
                (index, stride) == key_probe::<G>(key, mask, attempts as nat),
                index <= mask,
                self.clean() && self.contents@.contains_key(key) && first_step <= self.locations@[key].1
                    ==> attempts <= self.locations@[key].1,
            decreases group_count - attempts,
        {
            let group = G::load(self.tags.as_slice(), index);
            let mut positions = G::match_tag(&group, search_tag);
            let ghost g = index as int;
            loop
                invariant
                    G::spec_positions_wf(positions),
                    forall|q: int| #[trigger] G::spec_has(positions, q) ==> 0 <= q < G::spec_group_size() && self.tags@[g + q] == search_tag,
                    forall|q: int| 0 <= q < G::spec_group_size() && self.tags@[g + q] == search_tag && !G::spec_has(positions, q)
                        ==> #[trigger] self.data@[self.slot(g, q)].0 != search_hash,
                decreases G::spec_measure(positions),
            {
                match G::next_position(&mut positions) {
                    None => {
                        break;
                    },
                    Some(position) => {
                        proof {
                            self.lemma_slot_mask(index, position);
                            self.lemma_group_tag(g, position as int);
                        }
                        let item_index = (index + position) & mask;
                        let item = &self.data[item_index];
                        if item.0 == search_hash {
                            proof {
                                assert(self.slot_ok(item_index as int));
                            }
                            return Some(&item.1);
                        }
                    },
                }
            }
            proof {
                if self.clean() && self.contents@.contains_key(key) && first_step <= self.locations@[key].1 {
                    assert(self.key_ok(key));
                    let (ki, kn, kp) = self.locations@[key];
                    if kn == attempts {
                        self.lemma_group_tag(g, kp);
                        assert(!G::spec_has(positions, kp));
                        assert(false);
                    }
                    assert(self.group_full(key_probe::<G>(key, mask, attempts as nat).0 as int));
                    assert(self.group_full(g));
                    assert forall|q: int| 0 <= q < G::spec_group_size() implies !G::spec_is_empty(#[trigger] G::spec_tags(group)[q]) by {
                        self.lemma_group_tag(g, q);
                        assert(self.data@[self.slot(g, q)].0 != 0);
                    }
                }
            }
            if G::contains_empty_slot(&group) {
                return None;
            }
            attempts += 1;
            if attempts >= group_count {
                proof {
                    if self.clean() && self.contents@.contains_key(key) && first_step <= self.locations@[key].1 {
                        assert(self.key_ok(key));
                    }
                }
                return None;
            }
            let ghost previous_index = index;
            let ghost previous_stride = stride;
            index = G::ProbeSeq::next(index, search_tag, &mut stride, mask);
            proof {
                <G::ProbeSeq as ProbeSequence>::lemma_in_table(search_hash, previous_index, search_tag, previous_stride, mask);
            }
        }
    }

    /// Looks up `hash`, stopping at the first group of its probe path with
    /// an empty slot, or once the probe has visited as many groups as the
    /// table has.
    fn get(&self, hash: u64) -> (r: Option<&V>)
        requires
            self.wf(),
        ensures
            r matches Some(v) ==> self.contents@.contains_key(table_key::<G>(hash)) && *v == self.contents@[table_key::<G>(hash)],
            self.clean() ==> (r is Some <==> self.contents@.contains_key(table_key::<G>(hash))),
    {
        proof {
            self.lemma_shape_facts();
        }
        let (search_tag, search_hash) = Self::prepare_hash(hash);
        let (index, stride) = G::ProbeSeq::start(hash, self.bucket_mask);
        proof {
            lemma_storable(hash);
            <G::ProbeSeq as ProbeSequence>::lemma_start_ignores_top_bit(hash, self.bucket_mask);
        }
        self.probe_from(search_tag, search_hash, index, stride, 0)
    }
}

impl<V: AsAtomic, G: GroupStrategy> Inner<V, G> {
    /// What a lookup of `hash` may return: a value only if it is the one
    /// stored under the key of `hash`, and, when no occupied slot carries an
    /// empty tag, a value exactly when the key is stored.
    spec fn lookup_ok(&self, hash: u64, r: Option<&V>) -> bool {
        &&& (r matches Some(v) ==> self.contents@.contains_key(table_key::<G>(hash)) && *v == self.contents@[table_key::<G>(hash)])
        &&& (self.clean() ==> (r is Some <==> self.contents@.contains_key(table_key::<G>(hash))))
    }

    /// Looks up `hash` as [`Inner::get`] does.
    fn get_const_lookup(&self, hash: u64) -> (r: Option<&V>)
        requires
            self.wf(),
        ensures
            self.lookup_ok(hash, r),
    {
        proof {
            self.lemma_shape_facts();
        }
        let (search_tag, search_hash) = Self::prepare_hash(hash);
        let (index, stride) = G::ProbeSeq::start(hash, self.bucket_mask);
        proof {
            lemma_storable(hash);
            <G::ProbeSeq as ProbeSequence>::lemma_start_ignores_top_bit(hash, self.bucket_mask);
        }
        self.probe_from(search_tag, search_hash, index, stride, 0)
    }

    /// Position `q` of the group at `g` carries the tag of `key`.
    spec fn tag_matches(&self, g: int, q: int, key: (u8, u64)) -> bool {
        self.tags@[g + q] == key.0
    }

    /// Position `q` of the group at `g` holds `key`.
    spec fn holds_key(&self, g: int, q: int, key: (u8, u64)) -> bool {
        self.tag_matches(g, q, key) && self.data@[self.slot(g, q)].0 == key.1
    }

    /// The number of the first `p` positions of the group at `g` that carry
    /// the tag of `key` but not its stored hash and come before the first
    /// position that holds `key`.
    spec fn scan_false_positives(&self, g: int, key: (u8, u64), p: int) -> nat
        decreases p,
    {
        if p <= 0 {
            0
        } else {
            let before = self.scan_false_positives(g, key, p - 1);
            if exists|q: int| 0 <= q < p - 1 && #[trigger] self.holds_key(g, q, key) {
                before
            } else {
                before + if self.tag_matches(g, p - 1, key) && !self.holds_key(g, p - 1, key) { 1nat } else { 0nat }
            }
        }
    }

    /// Once a position holds `key`, the count of the scan stays put.
    proof fn lemma_scan_false_positives_stay(&self, g: int, key: (u8, u64), p: int, k: int)
        requires
            0 <= p < k,
            self.holds_key(g, p, key),
        ensures
            self.scan_false_positives(g, key, k) == self.scan_false_positives(g, key, p),
        decreases k - p,
    {
        if k > p + 1 {
            self.lemma_scan_false_positives_stay(g, key, p, k - 1);
            assert(self.holds_key(g, p, key));
        }
    }

    /// Positions `a..b` carry other tags: the count of the scan stays put.
    proof fn lemma_scan_false_positives_skip(&self, g: int, key: (u8, u64), a: int, b: int)
        requires
            0 <= a <= b,
            forall|q: int| a <= q < b ==> !#[trigger] self.tag_matches(g, q, key),
        ensures
            self.scan_false_positives(g, key, b) == self.scan_false_positives(g, key, a),
        decreases b - a,
    {
        if b > a {
            self.lemma_scan_false_positives_skip(g, key, a, b - 1);
            assert(!self.tag_matches(g, b - 1, key));
        }
    }

    proof fn lemma_scan_false_positives_bound(&self, g: int, key: (u8, u64), p: int)
        requires
            p >= 0,
        ensures
            self.scan_false_positives(g, key, p) <= p,
        decreases p,
    {
        if p > 0 {
            self.lemma_scan_false_positives_bound(g, key, p - 1);
        }
    }

    /// The group at `g` holds `key`.
    spec fn group_holds(&self, g: int, key: (u8, u64)) -> bool {
        exists|q: int| 0 <= q < G::spec_group_size() && #[trigger] self.holds_key(g, q, key)
    }

    /// The group at `g` has a slot with an empty tag.
    spec fn group_has_empty(&self, g: int) -> bool {
        exists|q: int| 0 <= q < G::spec_group_size() && G::spec_is_empty(#[trigger] self.tags@[g + q])
    }

    /// The number of groups that a lookup of `key`, at step `j` of its probe,
    /// steps past before it stops: at a group that holds the key, at a group
    /// with an empty tag, or at the last group the table has.
    spec fn lookup_steps(&self, key: (u8, u64), j: nat) -> nat
        decreases self.group_count() - j,
    {
        let g = key_probe::<G>(key, self.bucket_mask, j).0 as int;
        if j + 1 >= self.group_count() || self.group_holds(g, key) || self.group_has_empty(g) {
            j
        } else {
            self.lookup_steps(key, j + 1)
        }
    }

    /// The number of slots whose tag matched but whose hash did not that a
    /// lookup of `key` meets from step `j` of its probe on.
    spec fn lookup_false_positives(&self, key: (u8, u64), j: nat) -> nat
        decreases self.group_count() - j,
    {
        let g = key_probe::<G>(key, self.bucket_mask, j).0 as int;
        let here = self.scan_false_positives(g, key, G::spec_group_size());
        if j + 1 >= self.group_count() || self.group_holds(g, key) || self.group_has_empty(g) {
            here
        } else {
            here + self.lookup_false_positives(key, j + 1)
        }
    }

    proof fn lemma_lookup_false_positives_bound(&self, key: (u8, u64), j: nat)
        requires
            j < self.group_count(),
            G::spec_group_size() > 0,
        ensures
            self.lookup_false_positives(key, j) <= (self.group_count() - j) * G::spec_group_size(),
        decreases self.group_count() - j,
    {
        let g = key_probe::<G>(key, self.bucket_mask, j).0 as int;
        let size = G::spec_group_size();
        self.lemma_scan_false_positives_bound(g, key, size);
        if !(j + 1 >= self.group_count() || self.group_holds(g, key) || self.group_has_empty(g)) {
            self.lemma_lookup_false_positives_bound(key, j + 1);
            assert((self.group_count() - (j + 1)) * size + size == (self.group_count() - j) * size) by (nonlinear_arith);
        } else {
            assert(size <= (self.group_count() - j) * size) by (nonlinear_arith)
                requires j < self.group_count(), size > 0;
        }
    }

    /// Looks up `hash` and counts the groups it stepped past and the slots
    /// whose tag matched but whose hash did not.
    #[verifier::loop_isolation(false)]
    fn get_with_stats(&self, hash: u64) -> (r: (Option<&V>, usize, usize))
        requires
            self.wf(),
        ensures
            self.lookup_ok(hash, r.0),
            r.1 == self.lookup_steps(table_key::<G>(hash), 0),
            r.2 == self.lookup_false_positives(table_key::<G>(hash), 0),
            r.1 < self.group_count(),
    {
        proof {
            self.lemma_shape_facts();
        }
        let (search_tag, search_hash) = Self::prepare_hash(hash);
        let ghost key = table_key::<G>(hash);
        let mask = self.bucket_mask;
        let (mut index, mut stride) = G::ProbeSeq::start(hash, mask);
        let group_count = (mask + 1) / G::group_size();
        let mut probe_length: usize = 0;
        let mut tags_false_positives: usize = 0;
        proof {
            lemma_storable(hash);
            <G::ProbeSeq as ProbeSequence>::lemma_start_ignores_top_bit(hash, mask);
            <G::ProbeSeq as ProbeSequence>::lemma_in_table(search_hash, 0, search_tag, 0, mask);
            self.lemma_lookup_false_positives_bound(key, 0);
            assert(self.group_count() * G::spec_group_size() == self.cap());
        }
        loop
            invariant
                self.wf(),
                key == (search_tag, search_hash),
                probe_length < group_count,
                group_count == self.group_count(),
                (index, stride) == key_probe::<G>(key, mask, probe_length as nat),
                index <= mask,
                self.clean() && self.contents@.contains_key(key) ==> probe_length <= self.locations@[key].1,
                self.lookup_steps(key, 0) == self.lookup_steps(key, probe_length as nat),
                tags_false_positives + self.lookup_false_positives(key, probe_length as nat) == self.lookup_false_positives(key, 0),
                self.lookup_false_positives(key, 0) <= self.cap(),
            decreases group_count - probe_length,
        {
            let group = G::load(self.tags.as_slice(), index);
            let mut positions = G::match_tag(&group, search_tag);
            let ghost g = index as int;
            let ghost mut scanned: int = 0;
            let mut group_false_positives: usize = 0;
            proof {
                assert forall|q: int| 0 <= q < G::spec_group_size() implies #[trigger] G::spec_tags(group)[q] == self.tags@[g + q] by {}
                self.lemma_scan_false_positives_bound(g, key, G::spec_group_size());
            }
            loop
                invariant
                    G::spec_positions_wf(positions),
                    forall|q: int| #[trigger] G::spec_has(positions, q) ==> 0 <= q < G::spec_group_size() && self.tags@[g + q] == search_tag,
                    forall|q: int| 0 <= q < G::spec_group_size() && self.tags@[g + q] == search_tag && !G::spec_has(positions, q)
                        ==> #[trigger] self.data@[self.slot(g, q)].0 != search_hash,
                    0 <= scanned <= G::spec_group_size(),
                    forall|q: int| #[trigger] G::spec_has(positions, q) ==> scanned <= q,
                    forall|q: int| scanned <= q < G::spec_group_size() && self.tag_matches(g, q, key)
                        ==> #[trigger] G::spec_has(positions, q),
                    forall|q: int| 0 <= q < scanned ==> !#[trigger] self.holds_key(g, q, key),
                    group_false_positives == self.scan_false_positives(g, key, scanned),
                decreases G::spec_measure(positions),
            {
                let ghost before = positions;
                match G::next_position(&mut positions) {
                    None => {
                        proof {
                            assert forall|q: int| scanned <= q < G::spec_group_size() implies !#[trigger] self.tag_matches(g, q, key) by {
                                if self.tag_matches(g, q, key) {
                                    assert(G::spec_has(before, q));
                                }
                            }
                            self.lemma_scan_false_positives_skip(g, key, scanned, G::spec_group_size());
                            assert(!self.group_holds(g, key)) by {
                                if self.group_holds(g, key) {
                                    let q = choose|q: int| 0 <= q < G::spec_group_size() && #[trigger] self.holds_key(g, q, key);
                                    if q >= scanned {
                                        assert(self.tag_matches(g, q, key));
                                    }
                                }
                            }
                        }
                        break;
                    },
                    Some(position) => {
                        proof {
                            self.lemma_slot_mask(index, position);
                            self.lemma_group_tag(g, position as int);
                            let p = position as int;
                            assert forall|q: int| scanned <= q < p implies !#[trigger] self.tag_matches(g, q, key) by {
                                if self.tag_matches(g, q, key) {
                                    assert(G::spec_has(before, q));
                                }
                            }
                            self.lemma_scan_false_positives_skip(g, key, scanned, p);
                            assert(G::spec_has(before, p));
                            assert(self.tag_matches(g, p, key));
                        }
                        let item_index = (index + position) & mask;
                        let item = &self.data[item_index];
                        if item.0 == search_hash {
                            proof {
                                assert(self.slot_ok(item_index as int));
                                let p = position as int;
                                assert(self.holds_key(g, p, key));
                                self.lemma_scan_false_positives_stay(g, key, p, G::spec_group_size());
                                assert(self.group_holds(g, key));
                                assert(self.lookup_false_positives(key, probe_length as nat)
                                    == self.scan_false_positives(g, key, G::spec_group_size()));
                            }
                            return (Some(&item.1), probe_length, tags_false_positives + group_false_positives);
                        } else {
                            proof {
                                let p = position as int;
                                assert(!self.holds_key(g, p, key));
                                assert(!(exists|q: int| 0 <= q < p && #[trigger] self.holds_key(g, q, key)));
                                assert(self.scan_false_positives(g, key, p + 1) == self.scan_false_positives(g, key, p) + 1);
                                self.lemma_scan_false_positives_bound(g, key, p + 1);
                                scanned = p + 1;
                            }
                            group_false_positives = group_false_positives + 1;
                        }
                    },
                }
            }
            tags_false_positives = tags_false_positives + group_false_positives;
            proof {
                if self.clean() && self.contents@.contains_key(key) {
                    assert(self.key_ok(key));
                    let (ki, kn, kp) = self.locations@[key];
                    if kn == probe_length {
                        self.lemma_group_tag(g, kp);
                        assert(!G::spec_has(positions, kp));
                        assert(false);
                    }
                    assert(self.group_full(key_probe::<G>(key, mask, probe_length as nat).0 as int));
                    assert forall|q: int| 0 <= q < G::spec_group_size() implies !G::spec_is_empty(#[trigger] G::spec_tags(group)[q]) by {
                        self.lemma_group_tag(g, q);
                        assert(self.data@[self.slot(g, q)].0 != 0);
                    }
                }
            }
            if G::contains_empty_slot(&group) {
                proof {
                    let q = choose|q: int| 0 <= q < G::spec_group_size() && G::spec_is_empty(#[trigger] G::spec_tags(group)[q]);
                    assert(G::spec_is_empty(self.tags@[g + q]));
                    assert(self.group_has_empty(g));
                }
                return (None, probe_length, tags_false_positives);
            }
            proof {
                assert(!self.group_has_empty(g)) by {
                    if self.group_has_empty(g) {
                        let q = choose|q: int| 0 <= q < G::spec_group_size() && G::spec_is_empty(#[trigger] self.tags@[g + q]);
                        assert(G::spec_is_empty(G::spec_tags(group)[q]));
                    }
                }
            }
            if probe_length + 1 >= group_count {
                proof {
                    if self.clean() && self.contents@.contains_key(key) {
                        assert(self.key_ok(key));
                    }
                }
                return (None, probe_length, tags_false_positives);
            }
            let ghost previous_index = index;
            let ghost previous_stride = stride;
            index = G::ProbeSeq::next(index, search_tag, &mut stride, mask);
            probe_length += 1;
            proof {
                <G::ProbeSeq as ProbeSequence>::lemma_in_table(search_hash, previous_index, search_tag, previous_stride, mask);
            }
        }
    }

    /// Looks up `hash`, scanning its first group's matches before probing
    /// on, as the bulk lookup does for each of its hashes.
    #[verifier::loop_isolation(false)]
    fn get_first_then_probe(&self, hash: u64) -> (r: Option<&V>)
        requires
            self.wf(),
        ensures
            self.lookup_ok(hash, r),
    {
        proof {
            self.lemma_shape_facts();
        }
        let mask = self.bucket_mask;
        let (search_tag, search_hash) = Self::prepare_hash(hash);
        let ghost key = table_key::<G>(hash);
        let mut index = G::ProbeSeq::start_index(hash, mask);
        proof {
            lemma_storable(hash);
            <G::ProbeSeq as ProbeSequence>::lemma_start_ignores_top_bit(hash, mask);
            <G::ProbeSeq as ProbeSequence>::lemma_in_table(search_hash, 0, search_tag, 0, mask);
            assert(index <= mask);
            assert(index < self.cap());
        }
        let group = G::load(self.tags.as_slice(), index);
        let mut iterator = G::match_tag(&group, search_tag);
        let ghost g = index as int;

        // Check the first entry of the iterator, then keep polling it.
        loop
            invariant
                self.wf(),
                index as int == g,
                g == key_probe::<G>(key, mask, 0).0,
                index <= mask,
                G::spec_positions_wf(iterator),
                forall|q: int| #[trigger] G::spec_has(iterator, q) ==> 0 <= q < G::spec_group_size() && self.tags@[g + q] == search_tag,
                forall|q: int| 0 <= q < G::spec_group_size() && self.tags@[g + q] == search_tag && !G::spec_has(iterator, q)
                    ==> #[trigger] self.data@[self.slot(g, q)].0 != search_hash,
            decreases G::spec_measure(iterator),
        {
            match G::next_position(&mut iterator) {
                None => {
                    break;
                },
                Some(position) => {
                    proof {
                        self.lemma_slot_mask(index, position);
                        self.lemma_group_tag(g, position as int);
                    }
                    let item_index = (index + position) & mask;
                    let item = &self.data[item_index];
                    if item.0 == search_hash {
                        proof {
                            assert(self.slot_ok(item_index as int));
                        }
                        return Some(&item.1);
                    }
                },
            }
        }
        proof {
            if self.contents@.contains_key(key) {
                assert(self.key_ok(key));
                let (ki, kn, kp) = self.locations@[key];
                if kn == 0 {
                    self.lemma_group_tag(g, kp);
                    assert(!G::spec_has(iterator, kp));
                    assert(false);
                }
            }
        }

        // Probe to the next group.
        let group_count = (mask + 1) / G::group_size();
        if group_count <= 1 {
            return None;
        }
        let mut stride = G::ProbeSeq::initial_stride(search_hash, mask);
        let ghost previous_stride = stride;
        proof {
            lemma_storable(hash);
            assert(stride == key_probe::<G>(key, mask, 0).1);
        }
        index = G::ProbeSeq::next(index, search_tag, &mut stride, mask);
        proof {
            assert((index, stride) == key_probe::<G>(key, mask, 1));
        }
        self.probe_from(search_tag, search_hash, index, stride, 1)
    }

    /// Looks up each of `hashes`.
    fn get_in_bulk(&self, hashes: &[u64]) -> (r: Vec<Option<&V>>)
        requires
            self.wf(),
        ensures
            r@.len() == hashes@.len(),
            forall|i: int| 0 <= i < hashes@.len() ==> self.lookup_ok(#[trigger] hashes@[i], r@[i]),
    {
        let mut results: Vec<Option<&V>> = Vec::new();
        let mut i: usize = 0;
        while i < hashes.len()
            invariant
                self.wf(),
                i <= hashes@.len(),
                results@.len() == i,
                forall|j: int| 0 <= j < i ==> self.lookup_ok(#[trigger] hashes@[j], results@[j]),
            decreases hashes@.len() - i,
        {
            let found = self.get_first_then_probe(hashes[i]);
            results.push(found);
            i += 1;
        }
        results
    }

    /// Looks up each of `hashes`, each from the start of its probe path.
    fn get_in_bulk_static(&self, hashes: &[u64; 256]) -> (r: Vec<Option<&V>>)
        requires
            self.wf(),
        ensures
            r@.len() == 256,
            forall|i: int| 0 <= i < 256 ==> self.lookup_ok(#[trigger] hashes@[i], r@[i]),
    {
        proof {
            self.lemma_shape_facts();
        }
        let mut results: Vec<Option<&V>> = Vec::new();
        let mut i: usize = 0;
        while i < 256
            invariant
                self.wf(),
                i <= 256,
                results@.len() == i,
                forall|j: int| 0 <= j < i ==> self.lookup_ok(#[trigger] hashes@[j], results@[j]),
            decreases 256 - i,
        {
            let hash = hashes[i];
            let search_tag = G::get_tag(hash);
            let search_hash = hash | HASH_OCCUPIED_BIT;
            let index = G::ProbeSeq::start_index(hash, self.bucket_mask);
            let stride = G::ProbeSeq::initial_stride(hash, self.bucket_mask);
            proof {
                lemma_storable(hash);
                <G::ProbeSeq as ProbeSequence>::lemma_start_ignores_top_bit(hash, self.bucket_mask);
            }
            let found = self.probe_from(search_tag, search_hash, index, stride, 0);
            results.push(found);
            i += 1;
        }
        results
    }

    /// Looks up each of `hashes`, each from the start of its probe path.
    fn get_in_bulk_4(&self, hashes: &[u64; 256]) -> (r: Vec<Option<&V>>)
        requires
            self.wf(),
        ensures
            r@.len() == 256,
            forall|i: int| 0 <= i < 256 ==> self.lookup_ok(#[trigger] hashes@[i], r@[i]),
    {
        self.get_in_bulk_static(hashes)
    }
}

impl<V: AsAtomic, G: GroupStrategy> Inner<V, G> {
    /// What a lookup of `hash` may give by value: as [`Inner::lookup_ok`].
    spec fn lookup_value_ok(&self, hash: u64, r: Option<V>) -> bool {
        &&& (r matches Some(v) ==> self.contents@.contains_key(table_key::<G>(hash)) && v == self.contents@[table_key::<G>(hash)])
        &&& (self.clean() ==> (r is Some <==> self.contents@.contains_key(table_key::<G>(hash))))
    }

    /// Looks `hash` up from its first group, with its search tag given.
    fn inner_loop(&self, hash: u64, search_tag: u8) -> (r: Option<&V>)
        requires
            self.wf(),
            search_tag == G::spec_tag(hash),
        ensures
            self.lookup_ok(hash, r),
    {
        proof {
            self.lemma_shape_facts();
        }
        let search_hash = hash | HASH_OCCUPIED_BIT;
        let index = G::ProbeSeq::start_index(hash, self.bucket_mask);
        let stride = G::ProbeSeq::initial_stride(hash, self.bucket_mask);
        proof {
            lemma_storable(hash);
            <G::ProbeSeq as ProbeSequence>::lemma_start_ignores_top_bit(hash, self.bucket_mask);
        }
        self.probe_from(search_tag, search_hash, index, stride, 0)
    }
}

impl<V: AsAtomic, G: BulkGroupStrategy> Inner<V, G> {
    /// Looks up eight hashes, their tags computed together.
    fn get_in_bulk_group(&self, hashes: &[u64; 8]) -> (r: [Option<&V>; 8])
        requires
            self.wf(),
        ensures
            forall|i: int| 0 <= i < 8 ==> self.lookup_ok(#[trigger] hashes@[i], r@[i]),
    {
        let search_tags = G::get_tags(hashes);
        let mut output: [Option<&V>; 8] = [None; 8];
        let mut i: usize = 0;
        while i < 8
            invariant
                self.wf(),
                i <= 8,
                forall|j: int| 0 <= j < 8 ==> #[trigger] search_tags@[j] == G::spec_tag(hashes@[j]),
                forall|j: int| 0 <= j < i ==> self.lookup_ok(#[trigger] hashes@[j], output@[j]),
            decreases 8 - i,
        {
            output[i] = self.inner_loop(hashes[i], search_tags[i]);
            i += 1;
        }
        output
    }
}

impl<V: AsAtomic, G: BulkGroupStrategy32> Inner<V, G> {
    /// Looks up thirty-two hashes, their tags computed together.
    fn get_in_bulk_group_32(&self, hashes: &[u64; 32]) -> (r: [Option<&V>; 32])
        requires
            self.wf(),
        ensures
            forall|i: int| 0 <= i < 32 ==> self.lookup_ok(#[trigger] hashes@[i], r@[i]),
    {
        let search_tags = G::get_tags(hashes);
        let mut output: [Option<&V>; 32] = [None; 32];
        let mut i: usize = 0;
        while i < 32
            invariant
                self.wf(),
                i <= 32,
                forall|j: int| 0 <= j < 32 ==> #[trigger] search_tags@[j] == G::spec_tag(hashes@[j]),
                forall|j: int| 0 <= j < i ==> self.lookup_ok(#[trigger] hashes@[j], output@[j]),
            decreases 32 - i,
        {
            output[i] = self.inner_loop(hashes[i], search_tags[i]);
            i += 1;
        }
        output
    }
}

impl<V: AsAtomic, G: BulkGroupStrategyN> Inner<V, G> {
    /// Looks up `N` hashes, their tags computed together, into `output`.
    fn get_in_bulk_group_n<const N: usize>(&self, hashes: &[u64; N], output: &mut [Option<V>; N])
        requires
            self.wf(),
        ensures
            forall|i: int| 0 <= i < N ==> self.lookup_value_ok(#[trigger] hashes@[i], final(output)@[i]),
    {
        let search_tags = G::get_tags_n(hashes.as_slice());
        let mut i: usize = 0;
        while i < N
            invariant
                self.wf(),
                i <= N,
                hashes@.len() == N,
                final(output)@.len() == N,
                search_tags@.len() == N,
                forall|j: int| 0 <= j < N ==> #[trigger] search_tags@[j] == G::spec_tag(hashes@[j]),
                forall|j: int| 0 <= j < i ==> self.lookup_value_ok(#[trigger] hashes@[j], output@[j]),
            decreases N - i,
        {
            let found = self.inner_loop(hashes[i], search_tags[i]);
            output[i] = match found {
                Some(v) => Some(*v),
                None => None,
            };
            i += 1;
        }
    }

    /// What a lookup of `hash` whose first group was left out of the bulk
    /// comparison gives: a value only if it is the one stored under the key
    /// of `hash`, and, when the table is clean, a value whenever the key is
    /// stored past its first group.
    spec fn uncompared_lookup_ok(&self, hash: u64, r: Option<V>) -> bool {
        &&& (r matches Some(v) ==> self.contents@.contains_key(table_key::<G>(hash)) && v == self.contents@[table_key::<G>(hash)])
        &&& (self.clean() && self.contents@.contains_key(table_key::<G>(hash)) && self.locations@[table_key::<G>(hash)].1 > 0
            ==> r is Some)
    }

    /// Looks up `N` hashes into `output`, comparing the first group of each
    /// with the bulk comparison of the strategy; the lookups whose first
    /// group that comparison leaves out start as if none of its tags matched.
    fn get_in_bulk_group_n_b<const N: usize>(&self, hashes: &[u64; N], output: &mut [Option<V>; N])
        requires
            self.wf(),
            N % 2 == 0,
        ensures
            0 <= G::spec_bulk_compared(N as int) <= N,
            forall|i: int| 0 <= i < G::spec_bulk_compared(N as int) ==> self.lookup_value_ok(#[trigger] hashes@[i], final(output)@[i]),
            forall|i: int| G::spec_bulk_compared(N as int) <= i < N ==> self.uncompared_lookup_ok(#[trigger] hashes@[i], final(output)@[i]),
    {
        proof {
            self.lemma_shape_facts();
        }
        let search_tags = G::get_tags_n(hashes.as_slice());
        let mut indices: Vec<usize> = Vec::new();
        let mut groups: Vec<G::Group> = Vec::new();
        let mut k: usize = 0;
        while k < N
            invariant
                self.wf(),
                k <= N,
                hashes@.len() == N,
                indices@.len() == k,
                groups@.len() == k,
                forall|j: int| 0 <= j < k ==> #[trigger] indices@[j] == G::ProbeSeq::spec_start_index(hashes@[j], self.bucket_mask),
                forall|j: int| 0 <= j < k ==> #[trigger] G::spec_tags(groups@[j])
                    == self.tags@.subrange(indices@[j] as int, indices@[j] + G::spec_group_size()),
            decreases N - k,
        {
            let index = G::ProbeSeq::start_index(hashes[k], self.bucket_mask);
            proof {
                <G::ProbeSeq as ProbeSequence>::lemma_in_table(hashes@[k as int], 0, 0, 0, self.bucket_mask);
            }
            indices.push(index);
            groups.push(G::load(self.tags.as_slice(), index));
            k += 1;
        }
        let mut match_tags = G::match_tag_n(groups.as_slice(), search_tags.as_slice());
        let ghost all_matches = match_tags@;
        let mut i: usize = N;
        while i > 0
            invariant
                self.wf(),
                i <= N,
                hashes@.len() == N,
                final(output)@.len() == N,
                search_tags@.len() == N,
                indices@.len() == N,
                groups@.len() == N,
                all_matches.len() == N,
                match_tags@ == all_matches.take(i as int),
                forall|j: int| 0 <= j < N ==> #[trigger] search_tags@[j] == G::spec_tag(hashes@[j]),
                forall|j: int| 0 <= j < N ==> #[trigger] indices@[j] == G::ProbeSeq::spec_start_index(hashes@[j], self.bucket_mask),
                forall|j: int| 0 <= j < N ==> #[trigger] G::spec_tags(groups@[j])
                    == self.tags@.subrange(indices@[j] as int, indices@[j] + G::spec_group_size()),
                0 <= G::spec_bulk_compared(N as int) <= N,
                forall|j: int| 0 <= j < N ==> G::spec_positions_wf(#[trigger] all_matches[j]),
                forall|j: int, p: int| 0 <= j < G::spec_bulk_compared(N as int) ==> (#[trigger] G::spec_has(all_matches[j], p)
                    <==> (0 <= p < G::spec_group_size() && G::spec_tags(groups@[j])[p] == search_tags@[j])),
                forall|j: int, p: int| G::spec_bulk_compared(N as int) <= j < N ==> !#[trigger] G::spec_has(all_matches[j], p),
                forall|j: int| i <= j < G::spec_bulk_compared(N as int) ==> self.lookup_value_ok(#[trigger] hashes@[j], output@[j]),
                forall|j: int| i <= j && G::spec_bulk_compared(N as int) <= j < N ==> self.uncompared_lookup_ok(#[trigger] hashes@[j], output@[j]),
            decreases i,
        {
            let j = i - 1;
            let positions = match match_tags.pop() {
                Some(positions) => positions,
                None => {
                    proof {
                        assert(match_tags@.len() == i);
                    }
                    return;
                },
            };
            proof {
                assert(positions == all_matches[j as int]);
                assert(match_tags@ =~= all_matches.take(j as int));
            }
            let ghost complete = j < G::spec_bulk_compared(N as int);
            let found = self.inner_loop_n_b(hashes[j], search_tags[j], indices[j], &groups[j], positions, Ghost(complete));
            output[j] = match found {
                Some(v) => Some(*v),
                None => None,
            };
            i = j;
        }
    }

    /// Looks up `hash` from its first group, whose tags were already compared
    /// with the search tag into `positions`. When the comparison was
    /// `complete`, `positions` holds every slot of the group whose tag is the
    /// search tag; otherwise it holds some of them.
    #[verifier::loop_isolation(false)]
    fn inner_loop_n_b(&self, hash: u64, search_tag: u8, index: usize, group: &G::Group, positions: G::Positions,
        Ghost(complete): Ghost<bool>) -> (r: Option<&V>)
        requires
            self.wf(),
            search_tag == G::spec_tag(hash),
            index == G::ProbeSeq::spec_start_index(hash, self.bucket_mask),
            G::spec_tags(*group) == self.tags@.subrange(index as int, index + G::spec_group_size()),
            G::spec_positions_wf(positions),
            forall|p: int| #[trigger] G::spec_has(positions, p)
                ==> (0 <= p < G::spec_group_size() && G::spec_tags(*group)[p] == search_tag),
            complete ==> forall|p: int| 0 <= p < G::spec_group_size() && G::spec_tags(*group)[p] == search_tag
                ==> #[trigger] G::spec_has(positions, p),
        ensures
            r matches Some(v) ==> self.contents@.contains_key(table_key::<G>(hash)) && *v == self.contents@[table_key::<G>(hash)],
            complete ==> self.lookup_ok(hash, r),
            self.clean() && self.contents@.contains_key(table_key::<G>(hash)) && self.locations@[table_key::<G>(hash)].1 > 0
                ==> r is Some,
    {
        proof {
            self.lemma_shape_facts();
            lemma_storable(hash);
            <G::ProbeSeq as ProbeSequence>::lemma_start_ignores_top_bit(hash, self.bucket_mask);
            <G::ProbeSeq as ProbeSequence>::lemma_in_table(hash, 0, 0, 0, self.bucket_mask);
        }
        let search_hash = hash | HASH_OCCUPIED_BIT;
        let ghost key = (search_tag, search_hash);
        let mask = self.bucket_mask;
        let group_count = (mask + 1) / G::group_size();
        let stride = G::ProbeSeq::initial_stride(hash, mask);
        let ghost g = index as int;
        let mut positions = positions;
        proof {
            assert(key == table_key::<G>(hash));
            assert((index, stride) == key_probe::<G>(key, mask, 0));
            assert forall|q: int| 0 <= q < G::spec_group_size() implies #[trigger] G::spec_tags(*group)[q] == self.tags@[g + q] by {}
        }
        loop
            invariant
                self.wf(),
                G::spec_positions_wf(positions),
                forall|q: int| #[trigger] G::spec_has(positions, q) ==> 0 <= q < G::spec_group_size() && self.tags@[g + q] == search_tag,
                complete ==> forall|q: int| 0 <= q < G::spec_group_size() && self.tags@[g + q] == search_tag && !G::spec_has(positions, q)
                    ==> #[trigger] self.data@[self.slot(g, q)].0 != search_hash,
            decreases G::spec_measure(positions),
        {
            match G::next_position(&mut positions) {
                None => {
                    break;
                },
                Some(position) => {
                    proof {
                        self.lemma_slot_mask(index, position);
                        self.lemma_group_tag(g, position as int);
                    }
                    let item_index = (index + position) & mask;
                    let item = &self.data[item_index];
                    if item.0 == search_hash {
                        proof {
                            assert(self.slot_ok(item_index as int));
                        }
                        return Some(&item.1);
                    }
                },
            }
        }
        proof {
            if self.clean() && self.contents@.contains_key(key) && (complete || self.locations@[key].1 > 0) {
                assert(self.key_ok(key));
                let (ki, kn, kp) = self.locations@[key];
                if kn == 0 {
                    self.lemma_group_tag(g, kp);
                    assert(!G::spec_has(positions, kp));
                    assert(false);
                }
                assert(self.group_full(key_probe::<G>(key, mask, 0).0 as int));
                assert(self.group_full(g));
                assert forall|q: int| 0 <= q < G::spec_group_size() implies !G::spec_is_empty(#[trigger] G::spec_tags(*group)[q]) by {
                    self.lemma_group_tag(g, q);
                    assert(self.data@[self.slot(g, q)].0 != 0);
                }
            }
        }
        if G::contains_empty_slot(group) {
            return None;
        }
        if 1 >= group_count {
            proof {
                if self.clean() && self.contents@.contains_key(key) {
                    assert(self.key_ok(key));
                }
            }
            return None;
        }
        let mut next_stride = stride;
        let next_index = G::ProbeSeq::next(index, search_tag, &mut next_stride, mask);
        self.probe_from(search_tag, search_hash, next_index, next_stride, 1)
    }
}

impl<V: AsAtomic, G: GroupStrategy> Inner<V, G> {
    /// The index of the tag that repeats the tag of slot `i`: past the end
    /// of the table for a slot of the first group, the slot itself otherwise.
    spec fn mirror(&self, i: int) -> int {
        if i < G::spec_group_size() { i + self.cap() } else { i }
    }

    /// Writes the tag of slot `index` and the copy of it that follows the
    /// last slot, if there is one.
    fn update_tag(&mut self, index: usize, tag: u8, bucket_mask: usize)
        requires
            power_of_two(old(self).cap()),
            old(self).cap() >= G::spec_group_size(),
            G::spec_group_size() == 4 || G::spec_group_size() == 8 || G::spec_group_size() == 16,
            old(self).cap() + G::spec_group_size() <= usize::MAX,
            old(self).tags@.len() == old(self).cap() + G::spec_group_size(),
            index < old(self).cap(),
            bucket_mask == old(self).bucket_mask,
        ensures
            final(self).tags@ == old(self).tags@.update(index as int, tag).update(old(self).mirror(index as int), tag),
            final(self).bucket_mask == old(self).bucket_mask,
            final(self).data == old(self).data,
            final(self).contents == old(self).contents,
            final(self).locations == old(self).locations,
    {
        let group_size = G::group_size();
        let wrapped = index.wrapping_sub(group_size);
        let ghost cap = (bucket_mask + 1) as int;
        proof {
            lemma_mask_is_mod(wrapped, (bucket_mask + 1) as usize);
            assert(wrapped & bucket_mask == (wrapped as int) % cap);
            let x = index as int - group_size as int;
            if index >= group_size {
                assert(wrapped as int == x);
                vstd::arithmetic::div_mod::lemma_small_mod((index - group_size) as nat, cap as nat);
            } else {
                let range = usize_range();
                assert(wrapped as int == x + range);
                vstd::arithmetic::div_mod::lemma_mod_add_multiples_vanish(x, range);
                vstd::arithmetic::div_mod::lemma_small_mod((x + range) as nat, range as nat);
                assert(x % range == x + range);
                lemma_mod_usize_range_then_mod(x, cap);
                vstd::arithmetic::div_mod::lemma_mod_add_multiples_vanish(x, cap);
                vstd::arithmetic::div_mod::lemma_small_mod((x + cap) as nat, cap as nat);
                assert((wrapped as int) % cap == x + cap);
            }
        }
        let index2 = (wrapped & bucket_mask) + group_size;
        assert(index2 == self.mirror(index as int));
        self.tags.set(index, tag);
        self.tags.set(index2, tag);
    }

    /// Overwriting the value of a slot keeps the storage well formed.
    proof fn lemma_value_update_wf(&self, before: &Self, i: int, value: V)
        requires
            before.wf(),
            0 <= i < before.cap(),
            before.data@[i].0 != 0,
            self.bucket_mask == before.bucket_mask,
            self.tags@ == before.tags@,
            self.data@ == before.data@.update(i, (before.data@[i].0, value)),
            self.contents@ == before.contents@.insert((before.tags@[i], before.data@[i].0), value),
            self.locations@ == before.locations@,
        ensures
            self.wf(),
            before.clean() ==> self.clean(),
    {
        let key = (before.tags@[i], before.data@[i].0);
        assert(before.slot_ok(i));
        assert(self.contents@.dom() =~= before.contents@.dom());
        assert forall|i2: int| 0 <= i2 < self.data@.len() implies #[trigger] self.data@[i2].0 == before.data@[i2].0 by {
        }
        assert forall|i2: int| 0 <= i2 < self.cap() implies #[trigger] self.slot_ok(i2) by {
            assert(before.slot_ok(i2));
            if i2 != i && before.data@[i2].0 != 0 {
                let key2 = (before.tags@[i2], before.data@[i2].0);
                assert(key2 != key);
            }
        }
        assert forall|k: (u8, u64)| #[trigger] self.locations@.contains_key(k) implies self.key_ok(k) by {
            assert(before.key_ok(k));
            let (ki, kn, kp) = self.locations@[k];
            assert forall|j: nat| j < kn implies #[trigger] self.group_full(key_probe::<G>(k, self.bucket_mask, j).0 as int) by {
                let g = key_probe::<G>(k, self.bucket_mask, j).0 as int;
                assert(before.group_full(g));
                self.lemma_same_hashes_same_full(before, g);
            }
        }
    }

    /// Claiming a free slot for a new key at the first group of its probe
    /// path with room keeps the storage well formed.
    proof fn lemma_insert_wf(&self, before: &Self, i: int, n: nat, p: int, key: (u8, u64), value: V)
        requires
            before.wf(),
            0 <= i < before.cap(),
            before.data@[i].0 == 0,
            !before.contents@.contains_key(key),
            key.1 != 0,
            n < before.group_count(),
            0 <= p < G::spec_group_size(),
            before.slot(key_probe::<G>(key, before.bucket_mask, n).0 as int, p) == i,
            forall|j: nat| j < n ==> #[trigger] before.group_full(key_probe::<G>(key, before.bucket_mask, j).0 as int),
            self.bucket_mask == before.bucket_mask,
            self.tags@ == before.tags@.update(i, key.0).update(before.mirror(i), key.0),
            self.data@ == before.data@.update(i, (key.1, value)),
            self.contents@ == before.contents@.insert(key, value),
            self.locations@ == before.locations@.insert(key, (i, n, p)),
        ensures
            self.wf(),
            before.clean() && !G::spec_is_empty(key.0) ==> self.clean(),
    {
        before.lemma_shape_facts();
        let cap = self.cap();
        let size = G::spec_group_size();
        assert(before.slot_ok(i));
        assert forall|j: int| 0 <= j < cap implies #[trigger] self.tags@[j] == (if j == i { key.0 } else { before.tags@[j] }) by {
        }
        assert forall|j: int| 0 <= j < size implies #[trigger] self.tags@[cap + j] == self.tags@[j] by {
            assert(before.tags@[cap + j] == before.tags@[j]);
        }
        assert(self.contents@.dom() =~= self.locations@.dom());
        // Groups only become fuller.
        assert forall|g: int| #[trigger] before.group_full(g) implies self.group_full(g) by {
            assert forall|q: int| 0 <= q < size implies #[trigger] self.data@[self.slot(g, q)].0 != 0 by {
                assert(before.data@[before.slot(g, q)].0 != 0);
                if self.slot(g, q) != i {
                    assert(self.data@[self.slot(g, q)] == before.data@[before.slot(g, q)]);
                }
            }
        }
        assert forall|i2: int| 0 <= i2 < cap implies #[trigger] self.slot_ok(i2) by {
            assert(before.slot_ok(i2));
            if i2 != i {
                assert(self.data@[i2] == before.data@[i2]);
                assert(self.tags@[i2] == before.tags@[i2]);
                if before.data@[i2].0 != 0 {
                    let key2 = (before.tags@[i2], before.data@[i2].0);
                    assert(key2 != key);
                    assert(before.locations@[key2].0 == i2);
                }
            } else {
                assert(self.tags@[i] == key.0);
            }
        }
        assert forall|k: (u8, u64)| #[trigger] self.locations@.contains_key(k) implies self.key_ok(k) by {
            let (ki, kn, kp) = self.locations@[k];
            if k == key {
                assert(self.tags@[i] == key.0);
                assert forall|j: nat| j < kn implies #[trigger] self.group_full(key_probe::<G>(k, self.bucket_mask, j).0 as int) by {
                    assert(before.group_full(key_probe::<G>(k, before.bucket_mask, j).0 as int));
                }
            } else {
                assert(before.locations@.contains_key(k));
                assert(before.key_ok(k));
                assert(ki != i);
                assert(self.data@[ki] == before.data@[ki]);
                assert(self.tags@[ki] == before.tags@[ki]);
                assert forall|j: nat| j < kn implies #[trigger] self.group_full(key_probe::<G>(k, self.bucket_mask, j).0 as int) by {
                    assert(before.group_full(key_probe::<G>(k, before.bucket_mask, j).0 as int));
                }
            }
        }
        if before.clean() && !G::spec_is_empty(key.0) {
            assert forall|i2: int| 0 <= i2 < cap && #[trigger] self.data@[i2].0 != 0 implies !G::spec_is_empty(self.tags@[i2]) by {
                if i2 != i {
                    assert(self.data@[i2] == before.data@[i2]);
                }
            }
        }
    }

    /// Writes `value` under `hash`. Returns the value it replaced (none when
    /// the key was new or held the empty value), or `Err(())` when the key is
    /// new and every group that the probe visits, as many as the table has,
    /// is full.
    #[verifier::loop_isolation(false)]
    #[verifier::spinoff_prover]
    fn insert_atomically(&mut self, hash: u64, value: V) -> (r: Result<Option<V>, ()>)
        requires
            old(self).wf(),
        ensures
            final(self).wf(),
            final(self).bucket_mask == old(self).bucket_mask,
            old(self).clean() ==> (r matches Ok(prev) ==> final(self).contents@ == old(self).contents@.insert(table_key::<G>(hash), value)
                && prev == previous_value(old(self).contents@, table_key::<G>(hash))),
            old(self).clean() && !G::spec_is_empty(G::spec_tag(hash)) ==> final(self).clean(),
            r is Err ==> *final(self) == *old(self),
            r is Err ==> !old(self).contents@.contains_key(table_key::<G>(hash)) && old(self).probe_full(hash),
            old(self).clean() && !old(self).contents@.contains_key(table_key::<G>(hash)) && old(self).probe_full(hash) ==> r is Err,
            r matches Ok(prev) ==> exists|t: u8| (t == G::spec_tag(hash) || G::spec_is_empty(t))
                && #[trigger] written_under(old(self).contents@, final(self).contents@, (t, storable_hash(hash)), value, prev),
    {
        proof {
            self.lemma_shape_facts();
        }
        let (search_tag, storable_hash) = Self::prepare_hash(hash);
        let ghost key = table_key::<G>(hash);
        let mask = self.bucket_mask;
        let (mut index, mut stride) = G::ProbeSeq::start(hash, mask);
        let group_count = (mask + 1) / G::group_size();
        let mut attempts: usize = 0;
        proof {
            lemma_storable(hash);
            <G::ProbeSeq as ProbeSequence>::lemma_start_ignores_top_bit(hash, mask);
            <G::ProbeSeq as ProbeSequence>::lemma_in_table(storable_hash, 0, search_tag, 0, mask);
            assert((index, stride) == key_probe::<G>(key, mask, 0));
        }
        loop
            invariant
                self.wf(),
                *self == *old(self),
                attempts < group_count,
                group_count == self.group_count(),
                (index, stride) == key_probe::<G>(key, mask, attempts as nat),
                index <= mask,
                forall|j: nat| j < attempts ==> #[trigger] self.group_full(key_probe::<G>(key, mask, j).0 as int),
                self.contents@.contains_key(key) ==> attempts <= self.locations@[key].1,
            decreases group_count - attempts,
        {
            let group = G::load(self.tags.as_slice(), index);
            let ghost g = index as int;
            let ghost s0 = *self;
            let mut positions = G::match_tag(&group, search_tag);
            loop
                invariant
                    *self == s0,
                    G::spec_positions_wf(positions),
                    forall|q: int| #[trigger] G::spec_has(positions, q) ==> 0 <= q < G::spec_group_size() && self.tags@[g + q] == search_tag,
                    forall|q: int| 0 <= q < G::spec_group_size() && self.tags@[g + q] == search_tag && !G::spec_has(positions, q)
                        ==> #[trigger] self.data@[self.slot(g, q)].0 != storable_hash,
                decreases G::spec_measure(positions),
            {
                match G::next_position(&mut positions) {
                    None => {
                        break;
                    },
                    Some(position) => {
                        proof {
                            self.lemma_slot_mask(index, position);
                            self.lemma_group_tag(g, position as int);
                        }
                        let item_index = (index + position) & mask;
                        let item = self.data[item_index];
                        if item.0 == storable_hash {
                            // Found a match, overwrite the value.
                            let previous = item.1;
                            let ghost before = *self;
                            proof {
                                assert(before.slot_ok(item_index as int));
                            }
                            self.data.set(item_index, (item.0, value));
                            self.contents = Ghost(self.contents@.insert((before.tags@[item_index as int], item.0), value));
                            proof {
                                self.lemma_value_update_wf(&before, item_index as int, value);
                            }
                            let replaced = Self::ignore_default_value(previous);
                            proof {
                                let t = before.tags@[item_index as int];
                                assert(written_under(old(self).contents@, self.contents@, (t, storable_hash), value, replaced));
                                assert(t == G::spec_tag(hash) || G::spec_is_empty(t));
                            }
                            return Ok(replaced);
                        }
                    },
                }
            }
            proof {
                if s0.contents@.contains_key(key) {
                    assert(s0.key_ok(key));
                    let (ki, kn, kp) = s0.locations@[key];
                    if kn == attempts {
                        s0.lemma_group_tag(g, kp);
                        assert(!G::spec_has(positions, kp));
                        assert(false);
                    }
                }
            }

            // No existing entry matched: look for an empty slot.
            let mut empties = G::match_empty(&group);
            loop
                invariant
                    *self == s0,
                    G::spec_positions_wf(empties),
                    forall|q: int| #[trigger] G::spec_has(empties, q) ==> 0 <= q < G::spec_group_size() && G::spec_is_empty(self.tags@[g + q]),
                    forall|q: int| 0 <= q < G::spec_group_size() && G::spec_is_empty(self.tags@[g + q]) && !G::spec_has(empties, q)
                        ==> #[trigger] self.data@[self.slot(g, q)].0 != 0,
                decreases G::spec_measure(empties),
            {
                match G::next_position(&mut empties) {
                    None => {
                        break;
                    },
                    Some(position) => {
                        proof {
                            self.lemma_slot_mask(index, position);
                            self.lemma_group_tag(g, position as int);
                        }
                        let item_index = (index + position) & mask;
                        let item = self.data[item_index];
                        if item.0 == 0 {
                            // Claim the empty slot.
                            let ghost before = *self;
                            proof {
                                assert(before.slot_ok(item_index as int));
                                if s0.contents@.contains_key(key) {
                                    assert(s0.key_ok(key));
                                    let kn = s0.locations@[key].1;
                                    assert(attempts < kn);
                                    assert(s0.group_full(key_probe::<G>(key, mask, attempts as nat).0 as int));
                                    assert(s0.data@[s0.slot(g, position as int)].0 != 0);
                                }
                                if s0.probe_full(hash) {
                                    assert(s0.group_full(key_probe::<G>(table_key::<G>(hash), s0.bucket_mask, attempts as nat).0 as int));
                                    assert(s0.data@[s0.slot(g, position as int)].0 != 0);
                                }
                            }
                            self.data.set(item_index, (storable_hash, value));
                            self.update_tag(item_index, search_tag, mask);
                            self.contents = Ghost(self.contents@.insert(key, value));
                            self.locations = Ghost(self.locations@.insert(key, (item_index as int, attempts as nat, position as int)));
                            proof {
                                self.lemma_insert_wf(&before, item_index as int, attempts as nat, position as int, key, value);
                                assert(written_under(old(self).contents@, self.contents@, key, value, None));
                            }
                            return Ok(None);
                        } else if item.0 == storable_hash {
                            // The slot already holds this stored hash: overwrite its value.
                            let previous = item.1;
                            let ghost before = *self;
                            proof {
                                assert(before.slot_ok(item_index as int));
                            }
                            self.data.set(item_index, (item.0, value));
                            self.contents = Ghost(self.contents@.insert((before.tags@[item_index as int], item.0), value));
                            proof {
                                self.lemma_value_update_wf(&before, item_index as int, value);
                            }
                            let replaced = Self::ignore_default_value(previous);
                            proof {
                                let t = before.tags@[item_index as int];
                                assert(written_under(old(self).contents@, self.contents@, (t, storable_hash), value, replaced));
                                assert(t == G::spec_tag(hash) || G::spec_is_empty(t));
                            }
                            return Ok(replaced);
                        }
                    },
                }
            }
            proof {
                assert forall|q: int| 0 <= q < G::spec_group_size() implies #[trigger] self.data@[self.slot(g, q)].0 != 0 by {
                    self.lemma_group_tag(g, q);
                    let i = self.slot(g, q);
                    assert(self.slot_ok(i));
                    if !G::spec_is_empty(self.tags@[g + q]) {
                        assert(!G::spec_is_empty(self.tags@[i]));
                    }
                }
                assert(self.group_full(g));
                if self.contents@.contains_key(key) {
                    assert(self.key_ok(key));
                }
            }

            attempts += 1;
            if attempts >= group_count {
                proof {
                    assert forall|j: nat| j < self.group_count() implies #[trigger] self.group_full(key_probe::<G>(key, self.bucket_mask, j).0 as int) by {
                        if j < attempts - 1 {
                        } else {
                            assert(j == attempts - 1);
                        }
                    }
                    assert(!self.contents@.contains_key(key));
                }
                return Err(());
            }
            let ghost previous_index = index;
            let ghost previous_stride = stride;
            index = G::ProbeSeq::next(index, search_tag, &mut stride, mask);
            proof {
                <G::ProbeSeq as ProbeSequence>::lemma_in_table(storable_hash, previous_index, search_tag, previous_stride, mask);
                assert forall|j: nat| j < attempts implies #[trigger] self.group_full(key_probe::<G>(key, mask, j).0 as int) by {
                    if j < attempts - 1 {
                    } else {
                        assert(j == attempts - 1);
                    }
                }
            }
        }
    }
}

/// The number of slots of a table asked for `capacity`: the smallest power
/// of two that is at least `capacity`, and at least one group.
pub open spec fn table_capacity<G: GroupStrategy>(capacity: usize) -> int {
    let rounded = next_pow2(capacity as nat) as int;
    if rounded > G::spec_group_size() { rounded } else { G::spec_group_size() }
}

/// A table that accepts writes.
pub struct WritableFixedTable<V, G> {
    inner: Inner<V, G>,
    capacity: usize,
}

impl<V, G> View for WritableFixedTable<V, G> {
    type V = Map<(u8, u64), V>;

    closed spec fn view(&self) -> Map<(u8, u64), V> {
        self.inner.contents@
    }
}

impl<V: AsAtomic, G: GroupStrategy> WritableFixedTable<V, G> {
    /// The table's internal invariant.
    pub closed spec fn wf(&self) -> bool {
        self.inner.wf() && self.capacity == self.inner.cap()
    }

    /// No occupied slot carries an empty tag. Only a strategy whose tags can
    /// equal its empty tag can break this, by storing such a hash.
    pub closed spec fn clean(&self) -> bool {
        self.inner.clean()
    }

    /// The number of slots.
    pub closed spec fn spec_capacity(&self) -> int {
        self.inner.cap()
    }

    /// Every group that a write of `hash` would visit, as many as the table
    /// has groups, is full.
    pub closed spec fn probe_full(&self, hash: u64) -> bool {
        self.inner.probe_full(hash)
    }

    /// An empty table with room for at least `capacity` values: the number of
    /// slots is the smallest power of two that is at least `capacity`, and at
    /// least one group.
    pub fn with_capacity(capacity: usize) -> (r: Self)
        requires
            table_capacity::<G>(capacity) + G::spec_group_size() <= usize::MAX,
            table_capacity::<G>(capacity) <= 0x8000_0000_0000_0000u64,
        ensures
            r.wf(),
            r.clean(),
            r@ == Map::<(u8, u64), V>::empty(),
            r.spec_capacity() == table_capacity::<G>(capacity),
            forall|hash: u64| !#[trigger] r.probe_full(hash),
    {
        proof {
            G::lemma_shape();
            lemma_next_pow2(capacity as nat);
        }
        let rounded = next_power_of_two(capacity);
        let group_size = G::group_size();
        let capacity = if rounded > group_size { rounded } else { group_size };
        proof {
            assert(power_of_two(group_size as int)) by {
                vstd::arithmetic::power2::lemma2_to64();
                if group_size == 4 {
                    assert(pow2(2) == 4);
                } else if group_size == 8 {
                    assert(pow2(3) == 8);
                } else {
                    assert(pow2(4) == 16);
                }
            }
            lemma_pow2_div(capacity as int, group_size as int);
        }
        let r = Self { inner: Inner::new(capacity), capacity };
        proof {
            assert forall|hash: u64| !#[trigger] r.probe_full(hash) by {
                r.inner.lemma_shape_facts();
                let key = table_key::<G>(hash);
                lemma_storable(hash);
                <G::ProbeSeq as ProbeSequence>::lemma_in_table(key.1, 0, 0, 0, r.inner.bucket_mask);
                let g = key_probe::<G>(key, r.inner.bucket_mask, 0).0 as int;
                r.inner.lemma_group_tag(g, 0);
                assert(!r.inner.group_full(g));
            }
        }
        r
    }

    /// Writes `value` under `hash`. Returns the value it replaced (none when
    /// the key was new or held the empty value), or `Err(())` when the key is
    /// new and every group the write visits is full.
    pub fn insert(&mut self, hash: u64, value: V) -> (r: Result<Option<V>, ()>)
        requires
            old(self).wf(),
        ensures
            final(self).wf(),
            final(self).spec_capacity() == old(self).spec_capacity(),
            old(self).clean() ==> (r matches Ok(prev) ==> final(self)@ == old(self)@.insert(table_key::<G>(hash), value)
                && prev == previous_value(old(self)@, table_key::<G>(hash))),
            old(self).clean() && !G::spec_is_empty(G::spec_tag(hash)) ==> final(self).clean(),
            r is Err ==> *final(self) == *old(self),
            r is Err ==> !old(self)@.contains_key(table_key::<G>(hash)) && old(self).probe_full(hash),
            old(self).clean() && !old(self)@.contains_key(table_key::<G>(hash)) && old(self).probe_full(hash) ==> r is Err,
            final(self)@.dom().finite(),
            final(self)@.len() <= final(self).spec_capacity(),
            old(self)@.len() < old(self).spec_capacity() ==> r is Ok,
            old(self).clean() ==> (r is Err <==> (!old(self)@.contains_key(table_key::<G>(hash))
                && old(self)@.len() == old(self).spec_capacity())),
            r matches Ok(prev) ==> exists|t: u8| (t == G::spec_tag(hash) || G::spec_is_empty(t))
                && #[trigger] written_under(old(self)@, final(self)@, (t, storable_hash(hash)), value, prev),
    {
        proof {
            if self.inner.probe_full(hash) {
                self.inner.lemma_full_probe_full_table(hash);
            }
            if self.inner.contents@.len() == self.inner.cap() {
                self.inner.lemma_full_table_full_probe(hash);
            }
        }
        let r = self.inner.insert_atomically(hash, value);
        proof {
            self.inner.lemma_key_count();
        }
        match r {
            Ok(prev) => Ok(prev),
            Err(()) => Err(()),
        }
    }

    /// The number of slots.
    pub fn capacity(&self) -> (r: usize)
        requires
            self.wf(),
        ensures
            r == self.spec_capacity(),
    {
        self.capacity
    }

    /// Stops accepting writes.
    pub fn to_read_only(self) -> (r: ReadOnlyFixedTable<V, G>)
        requires
            self.wf(),
        ensures
            r.wf(),
            r@ == self@,
            r.clean() == self.clean(),
    {
        ReadOnlyFixedTable::new(self.inner)
    }
}

/// The positions below `n` whose tags are not empty, lowest first.
pub open spec fn occupied_positions<G: GroupStrategy>(tags: Seq<u8>, n: int) -> Seq<int>
    decreases n,
{
    if n <= 0 {
        Seq::empty()
    } else if !G::spec_is_empty(tags[n - 1]) {
        occupied_positions::<G>(tags, n - 1).push(n - 1)
    } else {
        occupied_positions::<G>(tags, n - 1)
    }
}

/// The hash that an entry reports for a slot with this tag and stored hash:
/// the tag without its low bit as the top byte, and the low 57 bits of the
/// stored hash.
pub open spec fn reported_hash(tag: u8, stored: u64) -> u64 {
    (((tag & 0xFEu8) as u64) << 56u64) | (stored & 0x01FF_FFFF_FFFF_FFFFu64)
}

/// The entry listed for slot `s`.
pub open spec fn listed_entry<V>(tags: Seq<u8>, data: Seq<(u64, V)>, s: int) -> (u64, V) {
    (reported_hash(tags[s], data[s].0), data[s].1)
}

/// The entries listed for the first `g` groups: for each group, in order,
/// the slots of that group at the positions that are occupied in the first
/// group, lowest first.
pub open spec fn listed_entries<V, G: GroupStrategy>(tags: Seq<u8>, data: Seq<(u64, V)>, g: int) -> Seq<(u64, V)>
    decreases g,
{
    if g <= 0 {
        Seq::empty()
    } else {
        listed_entries::<V, G>(tags, data, g - 1) + occupied_positions::<G>(tags, G::spec_group_size() as int).map_values(
            |p: int| listed_entry(tags, data, (g - 1) * G::spec_group_size() + p))
    }
}

/// Positions whose tags are empty add nothing to the occupied positions.
proof fn lemma_occupied_skip<G: GroupStrategy>(tags: Seq<u8>, a: int, b: int)
    requires
        0 <= a <= b,
        forall|q: int| a <= q < b ==> G::spec_is_empty(#[trigger] tags[q]),
    ensures
        occupied_positions::<G>(tags, b) == occupied_positions::<G>(tags, a),
    decreases b - a,
{
    if b > a {
        lemma_occupied_skip::<G>(tags, a, b - 1);
    }
}

impl<V: AsAtomic, G: IterableGroupStrategy> WritableFixedTable<V, G> {
    /// The tags of the slots, by slot, followed by a copy of the first
    /// group's tags.
    pub closed spec fn tags_view(&self) -> Seq<u8> {
        self.inner.tags@
    }

    /// The stored hashes and values of the slots, by slot.
    pub closed spec fn data_view(&self) -> Seq<(u64, V)> {
        self.inner.data@
    }

    /// Lists entries group by group: for every group, in order, the slots
    /// of that group at the positions whose tags are occupied in the first
    /// group, each as the hash rebuilt from its tag and stored hash, and its
    /// value.
    pub fn entries(&self) -> (r: WritableMapIterator<V>)
        requires
            self.wf(),
        ensures
            r.remaining() == listed_entries::<V, G>(self.tags_view(), self.data_view(),
                self.spec_capacity() / G::spec_group_size() as int),
    {
        proof {
            self.inner.lemma_shape_facts();
        }
        let cells = self.inner.cell_count();
        let group_size = G::group_size();
        let ghost tags = self.inner.tags@;
        let ghost data = self.inner.data@;
        let ghost gs = group_size as int;
        let ghost p0 = occupied_positions::<G>(tags, gs);
        let mut out: Vec<(u64, V)> = Vec::new();
        let mut group_start: usize = 0;
        let ghost mut g: int = 0;
        while group_start < cells
            invariant
                self.wf(),
                tags == self.inner.tags@,
                data == self.inner.data@,
                cells == self.inner.cap(),
                gs == G::spec_group_size(),
                group_size == gs,
                cells == self.inner.group_count() * gs,
                cells + gs <= usize::MAX,
                0 <= g <= self.inner.group_count(),
                group_start == g * gs,
                p0 == occupied_positions::<G>(tags, gs),
                out@ == listed_entries::<V, G>(tags, data, g),
            decreases cells - group_start,
        {
            proof {
                assert(g < self.inner.group_count()) by (nonlinear_arith)
                    requires group_start == g * gs, group_start < cells, cells == self.inner.group_count() * gs, gs > 0;
                vstd::arithmetic::mul::lemma_mul_inequality(g + 1, self.inner.group_count(), gs);
                vstd::arithmetic::mul::lemma_mul_is_distributive_add_other_way(gs, g, 1);
                assert(group_start + gs <= cells);
            }
            let group = G::load(self.inner.tags.as_slice(), 0);
            let mut positions = G::match_non_empty(&group);
            let ghost before = out@;
            let ghost mut lower: int = 0;
            loop
                invariant
                    self.wf(),
                    tags == self.inner.tags@,
                    data == self.inner.data@,
                    gs == G::spec_group_size(),
                    group_start + gs <= cells,
                    cells == self.inner.cap(),
                    G::spec_tags(group) == tags.subrange(0, gs),
                    G::spec_positions_wf(positions),
                    0 <= lower <= gs,
                    forall|q: int| G::spec_has(positions, q) <==> (lower <= q < gs && !G::spec_is_empty(tags[q])),
                    out@ == before + occupied_positions::<G>(tags, lower).map_values(
                        |p: int| listed_entry(tags, data, group_start + p)),
                ensures
                    out@ == before + occupied_positions::<G>(tags, gs).map_values(
                        |p: int| listed_entry(tags, data, group_start + p)),
                decreases G::spec_measure(positions),
            {
                match G::next_position(&mut positions) {
                    Some(p) => {
                        proof {
                            assert forall|q: int| lower <= q < p implies G::spec_is_empty(#[trigger] tags[q]) by {
                                assert(!G::spec_has(positions, q));
                            }
                            lemma_occupied_skip::<G>(tags, lower, p as int);
                        }
                        if group_start + p < cells {
                            let s = group_start + p;
                            let item = self.inner.data[s];
                            let tag = self.inner.tags[s];
                            let hash = (((tag & 0xFEu8) as u64) << 56u64) | (item.0 & 0x01FF_FFFF_FFFF_FFFFu64);
                            out.push((hash, item.1));
                        }
                        proof {
                            let next = occupied_positions::<G>(tags, p + 1);
                            assert(next == occupied_positions::<G>(tags, lower).push(p as int));
                            assert(out@ =~= before + next.map_values(|q: int| listed_entry(tags, data, group_start + q)));
                            lower = p + 1;
                        }
                    },
                    None => {
                        proof {
                            assert forall|q: int| lower <= q < gs implies G::spec_is_empty(#[trigger] tags[q]) by {
                                assert(!G::spec_has(positions, q));
                            }
                            lemma_occupied_skip::<G>(tags, lower, gs);
                        }
                        break;
                    },
                }
            }
            proof {
                assert(out@ =~= listed_entries::<V, G>(tags, data, g + 1));
                g = g + 1;
            }
            group_start = group_start + group_size;
        }
        proof {
            assert(g == self.inner.group_count()) by (nonlinear_arith)
                requires group_start == g * gs, group_start >= cells, g <= self.inner.group_count(),
                    cells == self.inner.group_count() * gs, gs > 0;
            vstd::arithmetic::div_mod::lemma_div_by_multiple(self.inner.group_count(), gs);
        }
        WritableMapIterator::new(out)
    }
}

/// Hands out the entries of a table one at a time.
pub struct WritableMapIterator<V> {
    items: Vec<(u64, V)>,
    index: usize,
}

impl<V> WritableMapIterator<V> {
    #[verifier::type_invariant]
    spec fn wf(&self) -> bool {
        self.index <= self.items@.len()
    }
}

impl<V: Copy> WritableMapIterator<V> {
    /// The entries still to come.
    pub closed spec fn remaining(&self) -> Seq<(u64, V)> {
        self.items@.skip(self.index as int)
    }

    fn new(items: Vec<(u64, V)>) -> (r: Self)
        ensures
            r.remaining() == items@,
    {
        let r = Self { items, index: 0 };
        assert(r.remaining() =~= r.items@);
        r
    }

    /// The next entry, or `None` once all were handed out.
    pub fn next(&mut self) -> (r: Option<(u64, V)>)
        ensures
            old(self).remaining().len() == 0 ==> r is None && final(self).remaining() == old(self).remaining(),
            old(self).remaining().len() > 0 ==> r == Some(old(self).remaining()[0])
                && final(self).remaining() == old(self).remaining().skip(1),
    {
        proof {
            use_type_invariant(&*self);
        }
        if self.index < self.items.len() {
            let item = self.items[self.index];
            self.index = self.index + 1;
            assert(self.remaining() =~= old(self).remaining().skip(1));
            Some(item)
        } else {
            assert(old(self).remaining().len() == 0);
            None
        }
    }
}

/// A table that no longer accepts writes.
pub struct ReadOnlyFixedTable<V, G> {
    inner: Inner<V, G>,
}

impl<V, G> View for ReadOnlyFixedTable<V, G> {
    type V = Map<(u8, u64), V>;

    closed spec fn view(&self) -> Map<(u8, u64), V> {
        self.inner.contents@
    }
}

impl<V: AsAtomic, G: GroupStrategy> ReadOnlyFixedTable<V, G> {
    /// The table's internal invariant.
    pub closed spec fn wf(&self) -> bool {
        self.inner.wf()
    }

    /// No occupied slot carries an empty tag.
    pub closed spec fn clean(&self) -> bool {
        self.inner.clean()
    }

    /// The number of groups that a lookup may visit.
    pub closed spec fn group_count(&self) -> int {
        self.inner.group_count()
    }

    /// What a lookup of `hash` may return: a value only if it is the one
    /// stored under the key of `hash`, and, when the table is clean, a value
    /// exactly when the key is stored.
    pub open spec fn lookup_ok(&self, hash: u64, r: Option<&V>) -> bool {
        &&& (r matches Some(v) ==> self@.contains_key(table_key::<G>(hash)) && *v == self@[table_key::<G>(hash)])
        &&& (self.clean() ==> (r is Some <==> self@.contains_key(table_key::<G>(hash))))
    }

    fn new(inner: Inner<V, G>) -> (r: Self)
        requires
            inner.wf(),
        ensures
            r.inner == inner,
    {
        Self { inner }
    }

    /// Looks up `hash`.
    pub fn get(&self, hash: u64) -> (r: Option<&V>)
        requires
            self.wf(),
        ensures
            self.lookup_ok(hash, r),
    {
        self.inner.get(hash)
    }

    /// Looks up each of `hashes`.
    pub fn get_in_bulk(&self, hashes: &[u64]) -> (r: Vec<Option<&V>>)
        requires
            self.wf(),
        ensures
            r@.len() == hashes@.len(),
            forall|i: int| 0 <= i < hashes@.len() ==> self.lookup_ok(#[trigger] hashes@[i], r@[i]),
    {
        self.inner.get_in_bulk(hashes)
    }

    /// Looks up each of `hashes`.
    pub fn get_in_bulk_static(&self, hashes: &[u64; 256]) -> (r: Vec<Option<&V>>)
        requires
            self.wf(),
        ensures
            r@.len() == 256,
            forall|i: int| 0 <= i < 256 ==> self.lookup_ok(#[trigger] hashes@[i], r@[i]),
    {
        self.inner.get_in_bulk_static(hashes)
    }

    /// Looks up `hash`.
    pub fn get_const_lookup(&self, hash: u64) -> (r: Option<&V>)
        requires
            self.wf(),
        ensures
            self.lookup_ok(hash, r),
    {
        self.inner.get_const_lookup(hash)
    }

    /// The number of groups that a lookup of `hash` steps past before it
    /// stops: at the group that holds its key, at a group with an empty tag,
    /// or at the last group of the table.
    pub closed spec fn lookup_steps(&self, hash: u64) -> nat {
        self.inner.lookup_steps(table_key::<G>(hash), 0)
    }

    /// The number of slots, on the groups a lookup of `hash` looks at, whose
    /// tag matches the tag of `hash` but whose hash does not, counted in
    /// each group up to the slot that holds `hash`.
    pub closed spec fn lookup_false_positives(&self, hash: u64) -> nat {
        self.inner.lookup_false_positives(table_key::<G>(hash), 0)
    }

    /// Looks up `hash`, and also returns the number of groups the lookup
    /// stepped past and the number of slots whose tag matched but whose hash
    /// did not.
    pub fn get_with_stats(&self, hash: u64) -> (r: (Option<&V>, usize, usize))
        requires
            self.wf(),
        ensures
            self.lookup_ok(hash, r.0),
            r.1 == self.lookup_steps(hash),
            r.2 == self.lookup_false_positives(hash),
            r.1 < self.group_count(),
    {
        self.inner.get_with_stats(hash)
    }
}


impl<V: AsAtomic, G: GroupStrategy> ReadOnlyFixedTable<V, G> {
    /// What a lookup of `hash` may give by value: as
    /// [`ReadOnlyFixedTable::lookup_ok`].
    pub open spec fn lookup_value_ok(&self, hash: u64, r: Option<V>) -> bool {
        &&& (r matches Some(v) ==> self@.contains_key(table_key::<G>(hash)) && v == self@[table_key::<G>(hash)])
        &&& (self.clean() ==> (r is Some <==> self@.contains_key(table_key::<G>(hash))))
    }

    /// For the stored key of `hash`, the number of groups that its probe
    /// path steps past before the group that holds it.
    pub closed spec fn probe_steps(&self, hash: u64) -> nat {
        self.inner.locations@[table_key::<G>(hash)].1
    }

    /// What a lookup of `hash` that starts as if no tag of its first group
    /// matched may give: a value only if it is the one stored under the key
    /// of `hash`, and, when the table is clean, a value whenever the key is
    /// stored past its first group.
    pub open spec fn uncompared_lookup_ok(&self, hash: u64, r: Option<V>) -> bool {
        &&& (r matches Some(v) ==> self@.contains_key(table_key::<G>(hash)) && v == self@[table_key::<G>(hash)])
        &&& (self.clean() && self@.contains_key(table_key::<G>(hash)) && self.probe_steps(hash) > 0 ==> r is Some)
    }
}

impl<V: AsAtomic, G: BulkGroupStrategy> ReadOnlyFixedTable<V, G> {
    /// Looks up eight hashes.
    pub fn get_in_bulk_static_8(&self, hashes: &[u64; 8]) -> (r: [Option<&V>; 8])
        requires
            self.wf(),
        ensures
            forall|i: int| 0 <= i < 8 ==> self.lookup_ok(#[trigger] hashes@[i], r@[i]),
    {
        self.inner.get_in_bulk_group(hashes)
    }
}

impl<V: AsAtomic, G: BulkGroupStrategy32> ReadOnlyFixedTable<V, G> {
    /// Looks up thirty-two hashes.
    pub fn get_in_bulk_static_32(&self, hashes: &[u64; 32]) -> (r: [Option<&V>; 32])
        requires
            self.wf(),
        ensures
            forall|i: int| 0 <= i < 32 ==> self.lookup_ok(#[trigger] hashes@[i], r@[i]),
    {
        self.inner.get_in_bulk_group_32(hashes)
    }
}

impl<V: AsAtomic, G: BulkGroupStrategyN> ReadOnlyFixedTable<V, G> {
    /// Looks up `N` hashes into `output`.
    pub fn get_in_bulk_static_n<const N: usize>(&self, hashes: &[u64; N], output: &mut [Option<V>; N])
        requires
            self.wf(),
        ensures
            forall|i: int| 0 <= i < N ==> self.lookup_value_ok(#[trigger] hashes@[i], final(output)@[i]),
    {
        self.inner.get_in_bulk_group_n(hashes, output)
    }

    /// Looks up `N` hashes into `output`, comparing their first groups in
    /// the blocks of the strategy; `N` is even. A lookup whose first group
    /// falls after the last whole block starts as if none of the tags of
    /// that group matched: it finds a key stored past its first group, and
    /// may miss one stored in it.
    pub fn get_in_bulk_static_n_b<const N: usize>(&self, hashes: &[u64; N], output: &mut [Option<V>; N])
        requires
            self.wf(),
            N % 2 == 0,
        ensures
            0 <= G::spec_bulk_compared(N as int) <= N,
            forall|i: int| 0 <= i < G::spec_bulk_compared(N as int) ==> self.lookup_value_ok(#[trigger] hashes@[i], final(output)@[i]),
            forall|i: int| G::spec_bulk_compared(N as int) <= i < N ==> self.uncompared_lookup_ok(#[trigger] hashes@[i], final(output)@[i]),
    {
        self.inner.get_in_bulk_group_n_b(hashes, output)
    }
}

/// A write is read back: in a clean table, a lookup of a hash whose key
/// `value` was last written under gives `value`, and a lookup of a hash with
/// another key gives what the table held for that key before the write.
pub proof fn lemma_read_after_write<V: AsAtomic, G: GroupStrategy>(
    before: Map<(u8, u64), V>,
    table: &ReadOnlyFixedTable<V, G>,
    written: u64,
    value: V,
    hash: u64,
    r: Option<&V>,
)
    requires
        table.wf(),
        table.clean(),
        table@ == before.insert(table_key::<G>(written), value),
        table.lookup_ok(hash, r),
    ensures
        table_key::<G>(hash) == table_key::<G>(written) ==> (r matches Some(v) && *v == value),
        table_key::<G>(hash) != table_key::<G>(written) ==> {
            &&& (r is Some <==> before.contains_key(table_key::<G>(hash)))
            &&& (r matches Some(v) ==> *v == before[table_key::<G>(hash)])
        },
{
}

} // verus!
