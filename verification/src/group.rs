//! Groups of tags and the ways a table compares them.
//!
//! A table keeps one tag byte per slot. A lookup loads the tags of a run of
//! consecutive slots, a group, and asks which of them equal the tag it looks
//! for and which mark an empty slot. Each strategy fixes the group size, the
//! empty tag, how a hash becomes a tag and how the table probes from group to
//! group.

use vstd::prelude::*;
use crate::bit_mask::{IterableBitMaskIntrinsics16x4, IterableBitMaskIntrinsics8x4, IterableBitMaskIntrinsics8x4Iterator,
    IterableBitMaskIntrinsics8x8, nibble_flag, only_nibble_flags, lane_flag32, only_lane_flags32};
use crate::bit_mask_8::{lane_flag, only_lane_flags};
use crate::intrinsics::{u8x8_compare_eq_aarch64, u8x8_lanes_of, u8x16_compare_eq_aarch64_shrink, eq_lane, eq_nibble};
use crate::bit_facts::{lemma_u64_lanes, lemma_u32_bits};
use crate::probe_sequence::{HybridProbeSequence, ProbeSequence, SwissTableProbeSeq, probe_slot_at};
use crate::power_of_two::power_of_two;
use crate::tag::{Tag, full_tag};
use crate::lanes::{compressed_match, match_eight_as_u8, widen_group4, match_four_groups, le_u32, unit_bytes, lemma_unit_lanes};

verus! {

/// A way of grouping, tagging and probing slots.
pub trait GroupStrategy: Sized {
    /// The tags of one group, loaded for comparison.
    type Group;
    /// How the table steps from group to group.
    type ProbeSeq: ProbeSequence;
    /// The positions of a group that a comparison selected, not yet visited.
    type Positions;

    /// The number of slots in a group.
    spec fn spec_group_size() -> int;
    /// The tag written into an empty slot.
    spec fn spec_empty_tag() -> u8;
    /// Whether a tag marks an empty slot.
    spec fn spec_is_empty(tag: u8) -> bool;
    /// The tag of a hash.
    spec fn spec_tag(hash: u64) -> u8;
    /// The tags of a loaded group, in slot order.
    spec fn spec_tags(group: Self::Group) -> Seq<u8>;
    /// Whether position `p` is still selected.
    spec fn spec_has(positions: Self::Positions, p: int) -> bool;
    /// The selection is in the shape that stepping through it needs.
    spec fn spec_positions_wf(positions: Self::Positions) -> bool;
    /// A measure that every step through the selection decreases.
    spec fn spec_measure(positions: Self::Positions) -> nat;

    /// In a table whose slot count is a power of two, the groups of the
    /// first `slots / group size` steps of a probe cover every slot.
    proof fn lemma_probe_covers(hash: u64, search_tag: u8, bucket_mask: usize, slot: int)
        requires
            power_of_two(bucket_mask + 1),
            bucket_mask < usize::MAX,
            Self::spec_group_size() <= bucket_mask + 1,
            0 <= slot <= bucket_mask,
        ensures
            exists|j: nat, p: int| j < (bucket_mask + 1) / Self::spec_group_size() && 0 <= p < Self::spec_group_size()
                && #[trigger] probe_slot_at::<Self::ProbeSeq>(hash, search_tag, bucket_mask, j, p) == slot,
    ;

    /// A group holds four, eight or sixteen slots, and the empty tag is
    /// empty.
    proof fn lemma_shape()
        ensures
            Self::spec_group_size() == 4 || Self::spec_group_size() == 8 || Self::spec_group_size() == 16,
            Self::spec_is_empty(Self::spec_empty_tag()),
    ;

    /// The number of slots in a group.
    fn group_size() -> (r: usize)
        ensures
            r as int == Self::spec_group_size(),
    ;

    /// The tag written into an empty slot.
    fn empty_tag() -> (r: u8)
        ensures
            r == Self::spec_empty_tag(),
    ;

    /// The tag of `hash`.
    fn get_tag(hash: u64) -> (r: u8)
        ensures
            r == Self::spec_tag(hash),
    ;

    /// Loads the group of tags that starts at `tags[start]`.
    fn load(tags: &[u8], start: usize) -> (r: Self::Group)
        requires
            start + Self::spec_group_size() <= tags@.len(),
        ensures
            Self::spec_tags(r) == tags@.subrange(start as int, start + Self::spec_group_size()),
    ;

    /// The positions of the group whose tag equals `search_tag`.
    fn match_tag(group: &Self::Group, search_tag: u8) -> (r: Self::Positions)
        ensures
            Self::spec_positions_wf(r),
            forall|p: int| Self::spec_has(r, p)
                <==> (0 <= p < Self::spec_group_size() && Self::spec_tags(*group)[p] == search_tag),
    ;

    /// The positions of the group that are empty.
    fn match_empty(group: &Self::Group) -> (r: Self::Positions)
        ensures
            Self::spec_positions_wf(r),
            forall|p: int| Self::spec_has(r, p)
                <==> (0 <= p < Self::spec_group_size() && Self::spec_is_empty(Self::spec_tags(*group)[p])),
    ;

    /// Whether some slot of the group is empty.
    fn contains_empty_slot(group: &Self::Group) -> (r: bool)
        ensures
            r <==> exists|p: int| 0 <= p < Self::spec_group_size() && Self::spec_is_empty(#[trigger] Self::spec_tags(*group)[p]),
    ;

    /// Removes one selected position and returns it, or returns `None` when
    /// none is left.
    fn next_position(positions: &mut Self::Positions) -> (r: Option<usize>)
        requires
            Self::spec_positions_wf(*old(positions)),
        ensures
            Self::spec_positions_wf(*final(positions)),
            r is None ==> forall|p: int| !Self::spec_has(*old(positions), p) && !Self::spec_has(*final(positions), p),
            r matches Some(p) ==> {
                &&& Self::spec_has(*old(positions), p as int)
                &&& forall|q: int| Self::spec_has(*final(positions), q) <==> (Self::spec_has(*old(positions), q) && q != p)
                &&& forall|q: int| q < p ==> !Self::spec_has(*old(positions), q)
                &&& Self::spec_measure(*final(positions)) < Self::spec_measure(*old(positions))
            },
    ;
}

/// A byte lane of a comparison is all ones or all zeros; its low bit tells
/// which.
proof fn lemma_lane_low_bit(value: u64, k: u64)
    requires
        (value >> k) & 0xFF == 0xFF || (value >> k) & 0xFF == 0,
    ensures
        ((value >> k) & 1 == 1) == ((value >> k) & 0xFF == 0xFF),
{
    lemma_u64_lanes(value, k);
}

/// A nibble lane of a narrowed comparison is all ones or all zeros; its low
/// bit tells which.
proof fn lemma_nibble_low_bit(value: u64, k: u64)
    requires
        (value >> k) & 0xF == 0xF || (value >> k) & 0xF == 0,
    ensures
        ((value >> k) & 1 == 1) == ((value >> k) & 0xF == 0xF),
{
    lemma_u64_lanes(value, k);
}

/// No lane of an empty mask is set.
proof fn lemma_zero_has_no_lane(k: u64)
    ensures
        (0u64 >> k) & 1 == 0,
{
    lemma_u64_lanes(0, k);
}

/// The mask of the positions of eight tags that equal `search_tag`.
fn match_byte_lanes(tags: &[u8; 8], search_tag: u8) -> (r: IterableBitMaskIntrinsics8x8)
    ensures
        only_lane_flags(r@),
        forall|i: int| 0 <= i < 8 ==> (#[trigger] lane_flag(r@, i) <==> tags@[i] == search_tag),
{
    let value = u8x8_compare_eq_aarch64(search_tag, tags);
    let r = IterableBitMaskIntrinsics8x8::new(value);
    proof {
        assert forall|i: int| 0 <= i < 8 implies (#[trigger] lane_flag(r@, i) <==> tags@[i] == search_tag) by {
            let k = (8 * i) as u64;
            assert((value >> k) & 0xFF == eq_lane(tags@[i], search_tag));
            lemma_lane_low_bit(value, k);
        }
    }
    r
}

/// The mask of the positions of sixteen tags that equal `search_tag`.
fn match_nibble_lanes(tags: &[u8; 16], search_tag: u8) -> (r: IterableBitMaskIntrinsics16x4)
    ensures
        only_nibble_flags(r@),
        forall|i: int| 0 <= i < 16 ==> (#[trigger] nibble_flag(r@, i) <==> tags@[i] == search_tag),
{
    let value = u8x16_compare_eq_aarch64_shrink(search_tag, tags);
    let r = IterableBitMaskIntrinsics16x4::new(value);
    proof {
        assert forall|i: int| 0 <= i < 16 implies (#[trigger] nibble_flag(r@, i) <==> tags@[i] == search_tag) by {
            let k = (4 * i) as u64;
            assert((value >> k) & 0xF == eq_nibble(tags@[i], search_tag));
            lemma_nibble_low_bit(value, k);
        }
    }
    r
}

/// Steps through a byte-lane mask of eight positions.
fn next_byte_lane(positions: &mut IterableBitMaskIntrinsics8x8) -> (r: Option<usize>)
    requires
        only_lane_flags(old(positions)@),
    ensures
        only_lane_flags(final(positions)@),
        r is None ==> forall|p: int| !(0 <= p < 8 && lane_flag(old(positions)@, p)) && !(0 <= p < 8 && lane_flag(final(positions)@, p)),
        r matches Some(p) ==> {
            &&& 0 <= p < 8 && lane_flag(old(positions)@, p as int)
            &&& forall|q: int| (0 <= q < 8 && lane_flag(final(positions)@, q))
                <==> ((0 <= q < 8 && lane_flag(old(positions)@, q)) && q != p)
            &&& forall|q: int| 0 <= q < p ==> !lane_flag(old(positions)@, q)
            &&& final(positions)@ < old(positions)@
        },
{
    let r = positions.next_set_index();
    proof {
        if r is None {
            assert forall|p: int| !(0 <= p < 8 && lane_flag(old(positions)@, p)) && !(0 <= p < 8 && lane_flag(final(positions)@, p)) by {
                lemma_zero_has_no_lane((8 * p) as u64);
            }
        }
    }
    r
}

/// Steps through a nibble-lane mask of sixteen positions.
fn next_nibble_lane(positions: &mut IterableBitMaskIntrinsics16x4) -> (r: Option<usize>)
    requires
        only_nibble_flags(old(positions)@),
    ensures
        only_nibble_flags(final(positions)@),
        r is None ==> forall|p: int| !(0 <= p < 16 && nibble_flag(old(positions)@, p)) && !(0 <= p < 16 && nibble_flag(final(positions)@, p)),
        r matches Some(p) ==> {
            &&& 0 <= p < 16 && nibble_flag(old(positions)@, p as int)
            &&& forall|q: int| (0 <= q < 16 && nibble_flag(final(positions)@, q))
                <==> ((0 <= q < 16 && nibble_flag(old(positions)@, q)) && q != p)
            &&& forall|q: int| 0 <= q < p ==> !nibble_flag(old(positions)@, q)
            &&& final(positions)@ < old(positions)@
        },
{
    let r = positions.next_set_index();
    proof {
        if r is None {
            assert forall|p: int| !(0 <= p < 16 && nibble_flag(old(positions)@, p)) && !(0 <= p < 16 && nibble_flag(final(positions)@, p)) by {
                lemma_zero_has_no_lane((4 * p) as u64);
            }
        }
    }
    r
}

/// Whether a nibble-lane mask selects any of its sixteen positions.
fn any_nibble_lane(mask: &IterableBitMaskIntrinsics16x4) -> (r: bool)
    requires
        only_nibble_flags(mask@),
    ensures
        r <==> exists|p: int| 0 <= p < 16 && #[trigger] nibble_flag(mask@, p),
{
    mask.any_bit_set()
}

/// Whether a byte-lane mask selects any of its eight positions.
fn any_byte_lane(mask: &IterableBitMaskIntrinsics8x8) -> (r: bool)
    requires
        only_lane_flags(mask@),
    ensures
        r <==> exists|p: int| 0 <= p < 8 && #[trigger] lane_flag(mask@, p),
{
    mask.any_bit_set()
}

/// Eight tags, compared with byte lanes and probed by odd strides.
#[derive(Clone, Copy)]
pub struct Group8 {
    tags: [u8; 8],
}

impl View for Group8 {
    type V = Seq<u8>;

    closed spec fn view(&self) -> Seq<u8> {
        self.tags@
    }
}

impl Group8 {
    /// Loads the eight tags that start at `tags[start]`.
    pub fn load(tags: &[u8], start: usize) -> (r: Self)
        requires
            start + 8 <= tags@.len(),
        ensures
            r@ == tags@.subrange(start as int, start + 8),
    {
        let r = Self { tags: [tags[start], tags[start + 1], tags[start + 2], tags[start + 3],
            tags[start + 4], tags[start + 5], tags[start + 6], tags[start + 7]] };
        assert(r@ =~= tags@.subrange(start as int, start + 8));
        r
    }

    /// The positions whose tag equals `search_tag`.
    pub fn find(&self, search_tag: u8) -> (r: IterableBitMaskIntrinsics8x8)
        ensures
            only_lane_flags(r@),
            forall|i: int| 0 <= i < 8 ==> (#[trigger] lane_flag(r@, i) <==> self@[i] == search_tag),
    {
        match_byte_lanes(&self.tags, search_tag)
    }

    /// The comparison of the tags with `search_tag`, compressed into one
    /// byte as [`crate::lanes::compress_match_result`] does: only the first two tags
    /// decide it.
    pub fn match_tag_as_u8(&self, search_tag: u8) -> (r: u8)
        ensures
            r == compressed_match(self@[0] == search_tag, self@[1] == search_tag),
    {
        match_eight_as_u8(self.tags, search_tag)
    }

    /// The positions whose tag is the empty tag, zero.
    pub fn match_empty(&self) -> (r: IterableBitMaskIntrinsics8x8)
        ensures
            only_lane_flags(r@),
            forall|i: int| 0 <= i < 8 ==> (#[trigger] lane_flag(r@, i) <==> self@[i] == 0),
    {
        self.find(0)
    }
}

impl GroupStrategy for Group8 {
    type Group = Group8;
    type ProbeSeq = HybridProbeSequence<8>;
    type Positions = IterableBitMaskIntrinsics8x8;

    open spec fn spec_group_size() -> int {
        8
    }

    open spec fn spec_empty_tag() -> u8 {
        0
    }

    open spec fn spec_is_empty(tag: u8) -> bool {
        tag == 0
    }

    open spec fn spec_tag(hash: u64) -> u8 {
        byte_tag(hash)
    }

    open spec fn spec_tags(group: Group8) -> Seq<u8> {
        group@
    }

    open spec fn spec_has(positions: IterableBitMaskIntrinsics8x8, p: int) -> bool {
        0 <= p < 8 && lane_flag(positions@, p)
    }

    open spec fn spec_positions_wf(positions: IterableBitMaskIntrinsics8x8) -> bool {
        only_lane_flags(positions@)
    }

    open spec fn spec_measure(positions: IterableBitMaskIntrinsics8x8) -> nat {
        positions@ as nat
    }

    proof fn lemma_shape() {
    }

    proof fn lemma_probe_covers(hash: u64, search_tag: u8, bucket_mask: usize, slot: int) {
        assert(power_of_two(8)) by {
            vstd::arithmetic::power2::lemma2_to64();
            assert(vstd::arithmetic::power2::pow2(3) == 8);
        }
        crate::probe_sequence::lemma_hybrid_covers::<8>(hash, search_tag, bucket_mask, slot);
    }

    fn group_size() -> (r: usize) {
        8
    }

    fn empty_tag() -> (r: u8) {
        0
    }

    fn get_tag(hash: u64) -> (r: u8) {
        get_byte_tag(hash)
    }

    fn load(tags: &[u8], start: usize) -> (r: Group8) {
        Group8::load(tags, start)
    }

    fn match_tag(group: &Group8, search_tag: u8) -> (r: IterableBitMaskIntrinsics8x8) {
        group.find(search_tag)
    }

    fn match_empty(group: &Group8) -> (r: IterableBitMaskIntrinsics8x8) {
        group.match_empty()
    }

    fn contains_empty_slot(group: &Group8) -> (r: bool) {
        let mask = group.match_empty();
        let r = any_byte_lane(&mask);
        proof {
            if r {
                let p = choose|p: int| 0 <= p < 8 && #[trigger] lane_flag(mask@, p);
                assert(Self::spec_is_empty(Self::spec_tags(*group)[p]));
            }
            if exists|p: int| 0 <= p < 8 && Self::spec_is_empty(#[trigger] Self::spec_tags(*group)[p]) {
                let p = choose|p: int| 0 <= p < 8 && Self::spec_is_empty(#[trigger] Self::spec_tags(*group)[p]);
                assert(lane_flag(mask@, p));
            }
        }
        r
    }

    fn next_position(positions: &mut IterableBitMaskIntrinsics8x8) -> (r: Option<usize>) {
        next_byte_lane(positions)
    }
}

/// Sixteen tags, compared with nibble lanes and probed by odd strides.
#[derive(Clone, Copy)]
pub struct Group16 {
    tags: [u8; 16],
}

impl View for Group16 {
    type V = Seq<u8>;

    closed spec fn view(&self) -> Seq<u8> {
        self.tags@
    }
}

/// Loads sixteen tags starting at `tags[start]`.
fn load_16(tags: &[u8], start: usize) -> (r: [u8; 16])
    requires
        start + 16 <= tags@.len(),
    ensures
        r@ == tags@.subrange(start as int, start + 16),
{
    let r = [tags[start], tags[start + 1], tags[start + 2], tags[start + 3],
        tags[start + 4], tags[start + 5], tags[start + 6], tags[start + 7],
        tags[start + 8], tags[start + 9], tags[start + 10], tags[start + 11],
        tags[start + 12], tags[start + 13], tags[start + 14], tags[start + 15]];
    assert(r@ =~= tags@.subrange(start as int, start + 16));
    r
}

impl Group16 {
    /// Loads the sixteen tags that start at `tags[start]`.
    pub fn load(tags: &[u8], start: usize) -> (r: Self)
        requires
            start + 16 <= tags@.len(),
        ensures
            r@ == tags@.subrange(start as int, start + 16),
    {
        Self { tags: load_16(tags, start) }
    }

    /// The positions whose tag equals `search_tag`.
    pub fn find(&self, search_tag: u8) -> (r: IterableBitMaskIntrinsics16x4)
        ensures
            only_nibble_flags(r@),
            forall|i: int| 0 <= i < 16 ==> (#[trigger] nibble_flag(r@, i) <==> self@[i] == search_tag),
    {
        match_nibble_lanes(&self.tags, search_tag)
    }

    /// The positions whose tag is the empty tag, zero.
    pub fn match_empty(&self) -> (r: IterableBitMaskIntrinsics16x4)
        ensures
            only_nibble_flags(r@),
            forall|i: int| 0 <= i < 16 ==> (#[trigger] nibble_flag(r@, i) <==> self@[i] == 0),
    {
        self.find(0)
    }
}

impl GroupStrategy for Group16 {
    type Group = Group16;
    type ProbeSeq = HybridProbeSequence<16>;
    type Positions = IterableBitMaskIntrinsics16x4;

    open spec fn spec_group_size() -> int {
        16
    }

    open spec fn spec_empty_tag() -> u8 {
        0
    }

    open spec fn spec_is_empty(tag: u8) -> bool {
        tag == 0
    }

    open spec fn spec_tag(hash: u64) -> u8 {
        byte_tag(hash)
    }

    open spec fn spec_tags(group: Group16) -> Seq<u8> {
        group@
    }

    open spec fn spec_has(positions: IterableBitMaskIntrinsics16x4, p: int) -> bool {
        0 <= p < 16 && nibble_flag(positions@, p)
    }

    open spec fn spec_positions_wf(positions: IterableBitMaskIntrinsics16x4) -> bool {
        only_nibble_flags(positions@)
    }

    open spec fn spec_measure(positions: IterableBitMaskIntrinsics16x4) -> nat {
        positions@ as nat
    }

    proof fn lemma_shape() {
    }

    proof fn lemma_probe_covers(hash: u64, search_tag: u8, bucket_mask: usize, slot: int) {
        assert(power_of_two(16)) by {
            vstd::arithmetic::power2::lemma2_to64();
            assert(vstd::arithmetic::power2::pow2(4) == 16);
        }
        crate::probe_sequence::lemma_hybrid_covers::<16>(hash, search_tag, bucket_mask, slot);
    }

    fn group_size() -> (r: usize) {
        16
    }

    fn empty_tag() -> (r: u8) {
        0
    }

    fn get_tag(hash: u64) -> (r: u8) {
        get_byte_tag(hash)
    }

    fn load(tags: &[u8], start: usize) -> (r: Group16) {
        Group16::load(tags, start)
    }

    fn match_tag(group: &Group16, search_tag: u8) -> (r: IterableBitMaskIntrinsics16x4) {
        group.find(search_tag)
    }

    fn match_empty(group: &Group16) -> (r: IterableBitMaskIntrinsics16x4) {
        group.match_empty()
    }

    fn contains_empty_slot(group: &Group16) -> (r: bool) {
        let mask = group.match_empty();
        let r = any_nibble_lane(&mask);
        proof {
            if r {
                let p = choose|p: int| 0 <= p < 16 && #[trigger] nibble_flag(mask@, p);
                assert(Self::spec_is_empty(Self::spec_tags(*group)[p]));
            }
            if exists|p: int| 0 <= p < 16 && Self::spec_is_empty(#[trigger] Self::spec_tags(*group)[p]) {
                let p = choose|p: int| 0 <= p < 16 && Self::spec_is_empty(#[trigger] Self::spec_tags(*group)[p]);
                assert(nibble_flag(mask@, p));
            }
        }
        r
    }

    fn next_position(positions: &mut IterableBitMaskIntrinsics16x4) -> (r: Option<usize>) {
        next_nibble_lane(positions)
    }
}

/// Sixteen tags in the SwissTable layout: the empty tag is all ones, a full
/// tag is the top byte of the hash raised to at least 2, and the table probes
/// by triangular steps.
#[derive(Clone, Copy)]
pub struct Group16Swiss {
    tags: [u8; 16],
}

impl View for Group16Swiss {
    type V = Seq<u8>;

    closed spec fn view(&self) -> Seq<u8> {
        self.tags@
    }
}

impl Group16Swiss {
    /// Loads the sixteen tags that start at `tags[start]`.
    pub fn load(tags: &[u8], start: usize) -> (r: Self)
        requires
            start + 16 <= tags@.len(),
        ensures
            r@ == tags@.subrange(start as int, start + 16),
    {
        Self { tags: load_16(tags, start) }
    }

    /// The positions whose tag equals `search_tag`.
    pub fn find(&self, search_tag: u8) -> (r: IterableBitMaskIntrinsics16x4)
        ensures
            only_nibble_flags(r@),
            forall|i: int| 0 <= i < 16 ==> (#[trigger] nibble_flag(r@, i) <==> self@[i] == search_tag),
    {
        match_nibble_lanes(&self.tags, search_tag)
    }

    /// The positions whose tag is the empty tag, all ones.
    pub fn match_empty(&self) -> (r: IterableBitMaskIntrinsics16x4)
        ensures
            only_nibble_flags(r@),
            forall|i: int| 0 <= i < 16 ==> (#[trigger] nibble_flag(r@, i) <==> self@[i] == 0xFF),
    {
        self.find(0b1111_1111)
    }
}

impl GroupStrategy for Group16Swiss {
    type Group = Group16Swiss;
    type ProbeSeq = SwissTableProbeSeq<16>;
    type Positions = IterableBitMaskIntrinsics16x4;

    open spec fn spec_group_size() -> int {
        16
    }

    open spec fn spec_empty_tag() -> u8 {
        0b1111_1111
    }

    open spec fn spec_is_empty(tag: u8) -> bool {
        tag == 0b1111_1111
    }

    open spec fn spec_tag(hash: u64) -> u8 {
        full_tag(hash)
    }

    open spec fn spec_tags(group: Group16Swiss) -> Seq<u8> {
        group@
    }

    open spec fn spec_has(positions: IterableBitMaskIntrinsics16x4, p: int) -> bool {
        0 <= p < 16 && nibble_flag(positions@, p)
    }

    open spec fn spec_positions_wf(positions: IterableBitMaskIntrinsics16x4) -> bool {
        only_nibble_flags(positions@)
    }

    open spec fn spec_measure(positions: IterableBitMaskIntrinsics16x4) -> nat {
        positions@ as nat
    }

    proof fn lemma_shape() {
    }

    proof fn lemma_probe_covers(hash: u64, search_tag: u8, bucket_mask: usize, slot: int) {
        assert(power_of_two(16)) by {
            vstd::arithmetic::power2::lemma2_to64();
            assert(vstd::arithmetic::power2::pow2(4) == 16);
        }
        crate::probe_sequence::lemma_swiss_covers::<16>(hash, search_tag, bucket_mask, slot);
    }

    fn group_size() -> (r: usize) {
        16
    }

    fn empty_tag() -> (r: u8) {
        0b1111_1111
    }

    fn get_tag(hash: u64) -> (r: u8) {
        Tag::full(hash).0
    }

    fn load(tags: &[u8], start: usize) -> (r: Group16Swiss) {
        Group16Swiss::load(tags, start)
    }

    fn match_tag(group: &Group16Swiss, search_tag: u8) -> (r: IterableBitMaskIntrinsics16x4) {
        group.find(search_tag)
    }

    fn match_empty(group: &Group16Swiss) -> (r: IterableBitMaskIntrinsics16x4) {
        group.match_empty()
    }

    fn contains_empty_slot(group: &Group16Swiss) -> (r: bool) {
        let mask = group.match_empty();
        let r = any_nibble_lane(&mask);
        proof {
            if r {
                let p = choose|p: int| 0 <= p < 16 && #[trigger] nibble_flag(mask@, p);
                assert(Self::spec_is_empty(Self::spec_tags(*group)[p]));
            }
            if exists|p: int| 0 <= p < 16 && Self::spec_is_empty(#[trigger] Self::spec_tags(*group)[p]) {
                let p = choose|p: int| 0 <= p < 16 && Self::spec_is_empty(#[trigger] Self::spec_tags(*group)[p]);
                assert(nibble_flag(mask@, p));
            }
        }
        r
    }

    fn next_position(positions: &mut IterableBitMaskIntrinsics16x4) -> (r: Option<usize>) {
        next_nibble_lane(positions)
    }
}

/// Eight tags whose top bit marks an empty slot: a full tag is the top seven
/// bits of the hash, and the table probes by triangular steps.
#[derive(Clone, Copy)]
pub struct Group8SwissPlus {
    tags: [u8; 8],
}

impl View for Group8SwissPlus {
    type V = Seq<u8>;

    closed spec fn view(&self) -> Seq<u8> {
        self.tags@
    }
}

/// The tag written into an empty slot of a [`Group8SwissPlus`] group.
pub const SWISS_PLUS_EMPTY_TAG: u8 = 0b1000_0000;

impl Group8SwissPlus {
    /// The tag of `hash`: its top seven bits.
    pub fn make_tag(hash: u64) -> (r: u8)
        ensures
            r == (hash >> 57u64) as u8,
            r < 0x80,
    {
        proof {
            lemma_u64_lanes(hash, 0);
        }
        (hash >> 57u64) as u8
    }

    /// Loads the eight tags that start at `tags[start]`.
    pub fn load(tags: &[u8], start: usize) -> (r: Self)
        requires
            start + 8 <= tags@.len(),
        ensures
            r@ == tags@.subrange(start as int, start + 8),
    {
        let r = Self { tags: [tags[start], tags[start + 1], tags[start + 2], tags[start + 3],
            tags[start + 4], tags[start + 5], tags[start + 6], tags[start + 7]] };
        assert(r@ =~= tags@.subrange(start as int, start + 8));
        r
    }

    /// The positions whose tag equals `search_tag`.
    pub fn find(&self, search_tag: u8) -> (r: IterableBitMaskIntrinsics8x8)
        ensures
            only_lane_flags(r@),
            forall|i: int| 0 <= i < 8 ==> (#[trigger] lane_flag(r@, i) <==> self@[i] == search_tag),
    {
        match_byte_lanes(&self.tags, search_tag)
    }

    /// The comparison of the tags with `search_tag`, compressed into one
    /// byte as [`crate::lanes::compress_match_result`] does: only the first two tags
    /// decide it.
    pub fn find_as_u8(&self, search_tag: u8) -> (r: u8)
        ensures
            r == compressed_match(self@[0] == search_tag, self@[1] == search_tag),
    {
        match_eight_as_u8(self.tags, search_tag)
    }

    /// The positions whose tag has its top bit set.
    pub fn match_empty(&self) -> (r: IterableBitMaskIntrinsics8x8)
        ensures
            only_lane_flags(r@),
            forall|i: int| 0 <= i < 8 ==> (#[trigger] lane_flag(r@, i) <==> self@[i] >= 0x80),
    {
        let t = &self.tags;
        let flags = [t[0] >= 0x80, t[1] >= 0x80, t[2] >= 0x80, t[3] >= 0x80, t[4] >= 0x80, t[5] >= 0x80, t[6] >= 0x80, t[7] >= 0x80];
        let value = u8x8_lanes_of(flags);
        let r = IterableBitMaskIntrinsics8x8::new(value);
        proof {
            assert forall|i: int| 0 <= i < 8 implies (#[trigger] lane_flag(r@, i) <==> self@[i] >= 0x80) by {
                let k = (8 * i) as u64;
                assert(flags@[i] == (self@[i] >= 0x80));
                lemma_lane_low_bit(value, k);
            }
        }
        r
    }
}

impl GroupStrategy for Group8SwissPlus {
    type Group = Group8SwissPlus;
    type ProbeSeq = SwissTableProbeSeq<8>;
    type Positions = IterableBitMaskIntrinsics8x8;

    open spec fn spec_group_size() -> int {
        8
    }

    open spec fn spec_empty_tag() -> u8 {
        0b1000_0000
    }

    open spec fn spec_is_empty(tag: u8) -> bool {
        tag >= 0x80
    }

    open spec fn spec_tag(hash: u64) -> u8 {
        (hash >> 57u64) as u8
    }

    open spec fn spec_tags(group: Group8SwissPlus) -> Seq<u8> {
        group@
    }

    open spec fn spec_has(positions: IterableBitMaskIntrinsics8x8, p: int) -> bool {
        0 <= p < 8 && lane_flag(positions@, p)
    }

    open spec fn spec_positions_wf(positions: IterableBitMaskIntrinsics8x8) -> bool {
        only_lane_flags(positions@)
    }

    open spec fn spec_measure(positions: IterableBitMaskIntrinsics8x8) -> nat {
        positions@ as nat
    }

    proof fn lemma_shape() {
    }

    proof fn lemma_probe_covers(hash: u64, search_tag: u8, bucket_mask: usize, slot: int) {
        assert(power_of_two(8)) by {
            vstd::arithmetic::power2::lemma2_to64();
            assert(vstd::arithmetic::power2::pow2(3) == 8);
        }
        crate::probe_sequence::lemma_swiss_covers::<8>(hash, search_tag, bucket_mask, slot);
    }

    fn group_size() -> (r: usize) {
        8
    }

    fn empty_tag() -> (r: u8) {
        SWISS_PLUS_EMPTY_TAG
    }

    fn get_tag(hash: u64) -> (r: u8) {
        Group8SwissPlus::make_tag(hash)
    }

    fn load(tags: &[u8], start: usize) -> (r: Group8SwissPlus) {
        Group8SwissPlus::load(tags, start)
    }

    fn match_tag(group: &Group8SwissPlus, search_tag: u8) -> (r: IterableBitMaskIntrinsics8x8) {
        group.find(search_tag)
    }

    fn match_empty(group: &Group8SwissPlus) -> (r: IterableBitMaskIntrinsics8x8) {
        group.match_empty()
    }

    fn contains_empty_slot(group: &Group8SwissPlus) -> (r: bool) {
        let mask = group.match_empty();
        let r = any_byte_lane(&mask);
        proof {
            if r {
                let p = choose|p: int| 0 <= p < 8 && #[trigger] lane_flag(mask@, p);
                assert(Self::spec_is_empty(Self::spec_tags(*group)[p]));
            }
            if exists|p: int| 0 <= p < 8 && Self::spec_is_empty(#[trigger] Self::spec_tags(*group)[p]) {
                let p = choose|p: int| 0 <= p < 8 && Self::spec_is_empty(#[trigger] Self::spec_tags(*group)[p]);
                assert(lane_flag(mask@, p));
            }
        }
        r
    }

    fn next_position(positions: &mut IterableBitMaskIntrinsics8x8) -> (r: Option<usize>) {
        next_byte_lane(positions)
    }
}

proof fn lemma_lanes4(b0: u32, b1: u32, b2: u32, b3: u32, r: u32)
    by (bit_vector)
    requires
        b0 == 0 || b0 == 0xFF, b1 == 0 || b1 == 0xFF, b2 == 0 || b2 == 0xFF, b3 == 0 || b3 == 0xFF,
        r == b0 | (b1 << 8u32) | (b2 << 16u32) | (b3 << 24u32),
    ensures
        (r & 1 == 1) == (b0 == 0xFF),
        ((r >> 8u32) & 1 == 1) == (b1 == 0xFF),
        ((r >> 16u32) & 1 == 1) == (b2 == 0xFF),
        ((r >> 24u32) & 1 == 1) == (b3 == 0xFF),
{
}

/// The mask of the positions of four tags that equal `search_tag`.
fn match_four_lanes(tags: &[u8; 4], search_tag: u8) -> (r: IterableBitMaskIntrinsics8x4)
    ensures
        only_lane_flags32(r@),
        forall|i: int| 0 <= i < 4 ==> (#[trigger] lane_flag32(r@, i) <==> tags@[i] == search_tag),
{
    let b0: u32 = if tags[0] == search_tag { 0xFF } else { 0 };
    let b1: u32 = if tags[1] == search_tag { 0xFF } else { 0 };
    let b2: u32 = if tags[2] == search_tag { 0xFF } else { 0 };
    let b3: u32 = if tags[3] == search_tag { 0xFF } else { 0 };
    let value = b0 | (b1 << 8u32) | (b2 << 16u32) | (b3 << 24u32);
    let r = IterableBitMaskIntrinsics8x4::new(value);
    proof {
        lemma_lanes4(b0, b1, b2, b3, value);
        lemma_u32_bits(value, 0, 0);
        assert forall|i: int| 0 <= i < 4 implies (#[trigger] lane_flag32(r@, i) <==> tags@[i] == search_tag) by {
            if i == 0 {
            } else if i == 1 {
                assert((8 * i) as u32 == 8u32);
            } else if i == 2 {
                assert((8 * i) as u32 == 16u32);
            } else {
                assert((8 * i) as u32 == 24u32);
            }
        }
    }
    r
}

/// Four tags, compared with byte lanes and probed by odd strides.
#[derive(Clone, Copy)]
pub struct Group4;

impl Group4 {
    /// The comparison of the four tags of `group`, held in the low lanes
    /// of a vector of eight whose high lanes are zero, with `search_tag`,
    /// compressed into one byte as [`crate::lanes::compress_match_result`] does: only the
    /// first two tags decide it.
    pub fn match_tag_as_u8(group: &[u8; 4], search_tag: u8) -> (r: u8)
        ensures
            r == compressed_match(group@[0] == search_tag, group@[1] == search_tag),
    {
        let lanes = widen_group4(*group);
        match_eight_as_u8(lanes, search_tag)
    }
}

impl GroupStrategy for Group4 {
    type Group = [u8; 4];
    type ProbeSeq = HybridProbeSequence<4>;
    type Positions = IterableBitMaskIntrinsics8x4Iterator;

    open spec fn spec_group_size() -> int {
        4
    }

    open spec fn spec_empty_tag() -> u8 {
        0
    }

    open spec fn spec_is_empty(tag: u8) -> bool {
        tag == 0
    }

    open spec fn spec_tag(hash: u64) -> u8 {
        byte_tag(hash)
    }

    open spec fn spec_tags(group: [u8; 4]) -> Seq<u8> {
        group@
    }

    open spec fn spec_has(positions: IterableBitMaskIntrinsics8x4Iterator, p: int) -> bool {
        0 <= p < 4 && lane_flag32(positions@, p)
    }

    open spec fn spec_positions_wf(positions: IterableBitMaskIntrinsics8x4Iterator) -> bool {
        only_lane_flags32(positions@)
    }

    open spec fn spec_measure(positions: IterableBitMaskIntrinsics8x4Iterator) -> nat {
        positions@ as nat
    }

    proof fn lemma_shape() {
    }

    proof fn lemma_probe_covers(hash: u64, search_tag: u8, bucket_mask: usize, slot: int) {
        assert(power_of_two(4)) by {
            vstd::arithmetic::power2::lemma2_to64();
            assert(vstd::arithmetic::power2::pow2(2) == 4);
        }
        crate::probe_sequence::lemma_hybrid_covers::<4>(hash, search_tag, bucket_mask, slot);
    }

    fn group_size() -> (r: usize) {
        4
    }

    fn empty_tag() -> (r: u8) {
        0
    }

    fn get_tag(hash: u64) -> (r: u8) {
        get_byte_tag(hash)
    }

    fn load(tags: &[u8], start: usize) -> (r: [u8; 4]) {
        let r = [tags[start], tags[start + 1], tags[start + 2], tags[start + 3]];
        assert(r@ =~= tags@.subrange(start as int, start + 4));
        r
    }

    fn match_tag(group: &[u8; 4], search_tag: u8) -> (r: IterableBitMaskIntrinsics8x4Iterator) {
        match_four_lanes(group, search_tag).into_iter()
    }

    fn match_empty(group: &[u8; 4]) -> (r: IterableBitMaskIntrinsics8x4Iterator) {
        match_four_lanes(group, 0).into_iter()
    }

    fn contains_empty_slot(group: &[u8; 4]) -> (r: bool) {
        let mask = match_four_lanes(group, 0);
        let r = mask.any_bit_set();
        proof {
            if r {
                let p = choose|p: int| 0 <= p < 4 && #[trigger] lane_flag32(mask@, p);
                assert(Self::spec_is_empty(Self::spec_tags(*group)[p]));
            }
            if exists|p: int| 0 <= p < 4 && Self::spec_is_empty(#[trigger] Self::spec_tags(*group)[p]) {
                let p = choose|p: int| 0 <= p < 4 && Self::spec_is_empty(#[trigger] Self::spec_tags(*group)[p]);
                assert(lane_flag32(mask@, p));
            }
        }
        r
    }

    fn next_position(positions: &mut IterableBitMaskIntrinsics8x4Iterator) -> (r: Option<usize>) {
        let r = positions.next();
        proof {
            if r is None {
                assert forall|p: int| !Self::spec_has(*old(positions), p) && !Self::spec_has(*final(positions), p) by {
                    let k = (8 * p) as u32;
                    lemma_u32_bits(0, k, 0);
                }
            }
        }
        r
    }
}

/// A strategy that computes the tags of eight hashes at once.
pub trait BulkGroupStrategy: GroupStrategy {
    /// The tags of `hashes`, in order.
    fn get_tags(hashes: &[u64; 8]) -> (r: [u8; 8])
        ensures
            forall|i: int| 0 <= i < 8 ==> #[trigger] r@[i] == Self::spec_tag(hashes@[i]),
    ;
}

/// A strategy that computes the tags of thirty-two hashes at once.
pub trait BulkGroupStrategy32: GroupStrategy {
    /// The tags of `hashes`, in order.
    fn get_tags(hashes: &[u64; 32]) -> (r: [u8; 32])
        ensures
            forall|i: int| 0 <= i < 32 ==> #[trigger] r@[i] == Self::spec_tag(hashes@[i]),
    ;
}

/// A strategy that computes tags and compares groups for many hashes at
/// once.
pub trait BulkGroupStrategyN: GroupStrategy {
    /// The tags of `hashes`, in order.
    fn get_tags_n(hashes: &[u64]) -> (r: Vec<u8>)
        ensures
            r@.len() == hashes@.len(),
            forall|i: int| 0 <= i < hashes@.len() ==> #[trigger] r@[i] == Self::spec_tag(hashes@[i]),
    ;

    /// How many of `n` groups [`BulkGroupStrategyN::match_tag_n`]
    /// compares: those of the whole blocks that it compares at once.
    spec fn spec_bulk_compared(n: int) -> int;

    /// For each group of the whole blocks that the strategy compares at
    /// once, the positions whose tag equals the search tag of the same
    /// index; for each group after the last whole block, no position. The
    /// groups come in pairs.
    fn match_tag_n(groups: &[Self::Group], search_tags: &[u8]) -> (r: Vec<Self::Positions>)
        requires
            groups@.len() == search_tags@.len(),
            groups@.len() % 2 == 0,
        ensures
            r@.len() == groups@.len(),
            0 <= Self::spec_bulk_compared(groups@.len() as int) <= groups@.len(),
            forall|i: int| 0 <= i < groups@.len() ==> Self::spec_positions_wf(#[trigger] r@[i]),
            forall|i: int, p: int| 0 <= i < Self::spec_bulk_compared(groups@.len() as int) ==> (#[trigger] Self::spec_has(r@[i], p)
                <==> (0 <= p < Self::spec_group_size() && Self::spec_tags(groups@[i])[p] == search_tags@[i])),
            forall|i: int, p: int| Self::spec_bulk_compared(groups@.len() as int) <= i < groups@.len()
                ==> !#[trigger] Self::spec_has(r@[i], p),
    ;

    /// The positions of one group whose tag equals `search_tag`.
    fn match_tag_1(group: &Self::Group, search_tag: u8) -> (r: Self::Positions)
        ensures
            Self::spec_positions_wf(r),
            forall|p: int| Self::spec_has(r, p)
                <==> (0 <= p < Self::spec_group_size() && Self::spec_tags(*group)[p] == search_tag),
    ;
}

impl BulkGroupStrategy for Group8 {
    fn get_tags(hashes: &[u64; 8]) -> (r: [u8; 8]) {
        [get_byte_tag(hashes[0]), get_byte_tag(hashes[1]), get_byte_tag(hashes[2]), get_byte_tag(hashes[3]),
            get_byte_tag(hashes[4]), get_byte_tag(hashes[5]), get_byte_tag(hashes[6]), get_byte_tag(hashes[7])]
    }
}

impl BulkGroupStrategy32 for Group8 {
    fn get_tags(hashes: &[u64; 32]) -> (r: [u8; 32]) {
        let mut output = [0u8; 32];
        let mut i: usize = 0;
        while i < 32
            invariant
                i <= 32,
                forall|j: int| 0 <= j < i ==> #[trigger] output@[j] == byte_tag(hashes@[j]),
            decreases 32 - i,
        {
            output[i] = get_byte_tag(hashes[i]);
            i += 1;
        }
        output
    }
}

/// The byte tags of `hashes`, in order.
fn byte_tags(hashes: &[u64]) -> (r: Vec<u8>)
    ensures
        r@.len() == hashes@.len(),
        forall|i: int| 0 <= i < hashes@.len() ==> #[trigger] r@[i] == byte_tag(hashes@[i]),
{
    let mut output: Vec<u8> = Vec::new();
    let mut i: usize = 0;
    while i < hashes.len()
        invariant
            i <= hashes@.len(),
            output@.len() == i,
            forall|j: int| 0 <= j < i ==> #[trigger] output@[j] == byte_tag(hashes@[j]),
        decreases hashes@.len() - i,
    {
        output.push(get_byte_tag(hashes[i]));
        i += 1;
    }
    output
}

impl BulkGroupStrategyN for Group8 {
    open spec fn spec_bulk_compared(n: int) -> int {
        n
    }

    fn get_tags_n(hashes: &[u64]) -> (r: Vec<u8>) {
        byte_tags(hashes)
    }

    fn match_tag_n(groups: &[Group8], search_tags: &[u8]) -> (r: Vec<IterableBitMaskIntrinsics8x8>) {
        let mut output: Vec<IterableBitMaskIntrinsics8x8> = Vec::new();
        let mut i: usize = 0;
        while i < groups.len()
            invariant
                i <= groups@.len(),
                groups@.len() == search_tags@.len(),
                output@.len() == i,
                forall|j: int| 0 <= j < i ==> Self::spec_positions_wf(#[trigger] output@[j]),
                forall|j: int, p: int| 0 <= j < i ==> (#[trigger] Self::spec_has(output@[j], p)
                    <==> (0 <= p < 8 && groups@[j]@[p] == search_tags@[j])),
            decreases groups@.len() - i,
        {
            output.push(groups[i].find(search_tags[i]));
            i += 1;
        }
        output
    }

    fn match_tag_1(group: &Group8, search_tag: u8) -> (r: IterableBitMaskIntrinsics8x8) {
        group.find(search_tag)
    }
}

impl BulkGroupStrategyN for Group4 {
    /// Four groups at a time: the groups after the last multiple of four
    /// are not compared.
    open spec fn spec_bulk_compared(n: int) -> int {
        n - n % 4
    }

    fn get_tags_n(hashes: &[u64]) -> (r: Vec<u8>) {
        byte_tags(hashes)
    }

    fn match_tag_n(groups: &[[u8; 4]], search_tags: &[u8]) -> (r: Vec<IterableBitMaskIntrinsics8x4Iterator>) {
        let n = groups.len();
        let whole = n - n % 4;
        let mut output: Vec<IterableBitMaskIntrinsics8x4Iterator> = Vec::new();
        let mut i: usize = 0;
        while i < whole
            invariant
                i <= whole,
                whole == n - n % 4,
                i % 4 == 0,
                n == groups@.len(),
                groups@.len() == search_tags@.len(),
                output@.len() == i,
                forall|j: int| 0 <= j < i ==> Self::spec_positions_wf(#[trigger] output@[j]),
                forall|j: int, p: int| 0 <= j < i ==> (#[trigger] Self::spec_has(output@[j], p)
                    <==> (0 <= p < 4 && groups@[j]@[p] == search_tags@[j])),
            decreases whole - i,
        {
            let block_groups = [groups[i], groups[i + 1], groups[i + 2], groups[i + 3]];
            let block_tags = [search_tags[i], search_tags[i + 1], search_tags[i + 2], search_tags[i + 3]];
            let masked_result = match_four_groups(&block_groups, &block_tags);
            let mut g: usize = 0;
            while g < 4
                invariant
                    g <= 4,
                    i + 4 <= n,
                    n == groups@.len(),
                    groups@.len() == search_tags@.len(),
                    output@.len() == i + g,
                    block_groups@ == seq![groups@[i as int], groups@[i + 1], groups@[i + 2], groups@[i + 3]],
                    block_tags@ == seq![search_tags@[i as int], search_tags@[i + 1], search_tags@[i + 2], search_tags@[i + 3]],
                    forall|h: int, p: int| 0 <= h < 4 && 0 <= p < 4 ==>
                        #[trigger] masked_result@[4 * h + p] == (if block_groups@[h]@[p] == block_tags@[h] { 1u8 } else { 0u8 }),
                    forall|j: int| 0 <= j < i + g ==> Self::spec_positions_wf(#[trigger] output@[j]),
                    forall|j: int, p: int| 0 <= j < i + g ==> (#[trigger] Self::spec_has(output@[j], p)
                        <==> (0 <= p < 4 && groups@[j]@[p] == search_tags@[j])),
                decreases 4 - g,
            {
                let quarter = [masked_result[4 * g], masked_result[4 * g + 1], masked_result[4 * g + 2], masked_result[4 * g + 3]];
                let word = le_u32(quarter);
                let positions = IterableBitMaskIntrinsics8x4::new_unchecked(word).into_iter();
                proof {
                    let h = g as int;
                    assert(quarter@[0] == masked_result@[4 * h + 0]);
                    assert(quarter@[1] == masked_result@[4 * h + 1]);
                    assert(quarter@[2] == masked_result@[4 * h + 2]);
                    assert(quarter@[3] == masked_result@[4 * h + 3]);
                    assert(unit_bytes(quarter@));
                    lemma_unit_lanes(quarter, word);
                    assert forall|p: int| #[trigger] Self::spec_has(positions, p)
                        <==> (0 <= p < 4 && groups@[i + h]@[p] == search_tags@[i + h]) by {
                        if 0 <= p < 4 {
                            assert(quarter@[p] == masked_result@[4 * h + p]);
                        }
                    }
                }
                output.push(positions);
                g += 1;
            }
            i += 4;
        }
        while i < n
            invariant
                whole <= i <= n,
                whole == n - n % 4,
                n == groups@.len(),
                output@.len() == i,
                forall|j: int| 0 <= j < i ==> Self::spec_positions_wf(#[trigger] output@[j]),
                forall|j: int, p: int| 0 <= j < whole ==> (#[trigger] Self::spec_has(output@[j], p)
                    <==> (0 <= p < 4 && groups@[j]@[p] == search_tags@[j])),
                forall|j: int, p: int| whole <= j < i ==> !#[trigger] Self::spec_has(output@[j], p),
            decreases n - i,
        {
            let empty = IterableBitMaskIntrinsics8x4::new_unchecked(0).into_iter();
            proof {
                assert forall|p: int| !#[trigger] Self::spec_has(empty, p) by {
                    lemma_u32_bits(0, (8 * p) as u32, 0);
                }
                assert(0u32 & 0xfefe_fefeu32 == 0) by (bit_vector);
            }
            output.push(empty);
            i += 1;
        }
        output
    }

    fn match_tag_1(group: &[u8; 4], search_tag: u8) -> (r: IterableBitMaskIntrinsics8x4Iterator) {
        match_four_lanes(group, search_tag).into_iter()
    }
}

/// The positions of a group of eight tags that are not empty.
pub trait IterableGroupStrategy: GroupStrategy {
    /// The positions whose tag is not the empty tag.
    fn match_non_empty(group: &Self::Group) -> (r: Self::Positions)
        ensures
            Self::spec_positions_wf(r),
            forall|p: int| Self::spec_has(r, p)
                <==> (0 <= p < Self::spec_group_size() && !Self::spec_is_empty(Self::spec_tags(*group)[p])),
    ;
}

impl IterableGroupStrategy for Group8 {
    fn match_non_empty(group: &Group8) -> (r: IterableBitMaskIntrinsics8x8) {
        let output = u8x8_compare_eq_aarch64(0, &group.tags);
        let r = IterableBitMaskIntrinsics8x8::new(!output);
        proof {
            assert forall|i: int| 0 <= i < 8 implies (#[trigger] lane_flag(r@, i) <==> group@[i] != 0) by {
                let k = (8 * i) as u64;
                assert((output >> k) & 0xFF == eq_lane(group@[i], 0));
                lemma_u64_lanes(output, k);
            }
        }
        r
    }
}

/// The tag of a hash for the byte-tag strategies: its top byte, raised to
/// at least 1 so that it never equals the empty tag.
pub open spec fn byte_tag(hash: u64) -> u8 {
    let top = (hash >> 56u64) as u8;
    if top > 1 { top } else { 1 }
}

fn get_byte_tag(hash: u64) -> (r: u8)
    ensures
        r == byte_tag(hash),
{
    let top = (hash >> 56u64) as u8;
    if top > 1 { top } else { 1 }
}

} // verus!
