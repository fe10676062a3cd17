//! Building blocks of a hash join: open-addressing hash tables keyed by
//! precomputed 64-bit hashes, the bit masks used to scan their tag groups,
//! and the bookkeeping that spreads the build work over several workers.

use vstd::prelude::*;

pub mod atomic;
pub mod bit_facts;
pub mod bit_mask;
pub mod bit_mask_8;
pub mod bypass_hasher;
pub mod chains;
pub mod concurrent_build;
pub mod destination;
pub mod const_group_iterator;
pub mod fixed_table;
pub mod fixed_table_n;
pub mod global_index_tracker;
pub mod group;
pub mod histogram_local_accumulate;
pub mod ideal_probe_chains;
pub mod input;
pub mod intrinsics;
pub mod lanes;
pub mod local_tables;
pub mod lookup;
pub mod mutex_map;
pub mod power_of_two;
pub mod probe_sequence;
pub mod tag;
pub mod utils;

verus! {

} // verus!
