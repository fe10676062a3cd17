use hashjoin::bypass_hasher::{BypassHasher, WithHash};
use hashjoin::concurrent_build::LocalTablePartitioner;
use hashjoin::input::{make_input, make_vec};
use hashjoin::lookup::{follow_overflow_chain, Lookup};
use hashjoin::utils::{get_owned_range, ClaimOnce, ClaimOnceError};
use std::sync::Arc;

#[test]
fn claim_once_gives_the_value_once() {
    let mut claim = ClaimOnce::new(5u32);
    assert!(matches!(claim.claim(), Ok(5)));
    assert!(matches!(claim.claim(), Err(ClaimOnceError::AlreadyClaimed)));
}

#[test]
fn bypass_hasher_returns_the_written_hash() {
    let hasher = BypassHasher::default();
    let mut instance = hasher.build_hasher();
    instance.write_u64(0x1234_5678);
    assert_eq!(instance.finish(), 0x1234_5678);
    instance.write_u64(7);
    assert_eq!(instance.finish(), 7);
}

#[test]
fn with_hash_keeps_both_parts() {
    let value = WithHash::new("key", 99);
    assert_eq!(value.inner, "key");
    assert_eq!(value.hash, 99);
}

struct Fixed;

impl Lookup for Fixed {
    fn get(&self, hash: u64) -> Vec<usize> {
        vec![hash as usize, 1]
    }
}

#[test]
fn lookup_through_arc_forwards() {
    let shared = Arc::new(Fixed);
    assert_eq!(shared.get(4), vec![4, 1]);
}

#[test]
fn make_vec_and_make_input_take_values_in_order() {
    let mut next = 0u64;
    let v = make_vec(4, || {
        next += 1;
        next
    });
    assert_eq!(v, vec![1, 2, 3, 4]);

    let mut next = 0u64;
    let input = make_input(2, 3, 2, || {
        next += 1;
        next
    });
    assert_eq!(input.len(), 2);
    assert_eq!(input[0], vec![vec![1, 2], vec![3, 4], vec![5, 6]]);
    assert_eq!(input[1][2], vec![11, 12]);
}

#[test]
fn owned_ranges_cover_everything_once() {
    for total in 0..40usize {
        for count in 1..7usize {
            let mut next = 0;
            for index in 0..count {
                let (start, end) = get_owned_range(total, count, index);
                assert_eq!(start, next);
                assert!(end >= start);
                next = end;
            }
            assert_eq!(next, total);
        }
    }
}

#[test]
fn masked_hash_of_partition_recovers_low_bits() {
    let partitioner = LocalTablePartitioner::new(0b10000);
    for hash in [0u64, 1, 0b10110, 0xFFFF_FFFF_FFFF_FFFF, 0x1234_5678_9ABC_DEF3] {
        let partition = partitioner.get_local_table_partition(hash);
        assert_eq!(partitioner.get_masked_hash_in_partition(partition), hash as usize & 0b1111);
    }
}

#[test]
fn overflow_chains_are_followed_to_their_end() {
    // Insertion indices 1..=5; 5 links to 3, 3 to 1, 1 ends the chain.
    let overflow = vec![0, 0, 0, 1, 0, 3];
    assert_eq!(follow_overflow_chain(&overflow, 5), Some(vec![4, 2, 0]));
    assert_eq!(follow_overflow_chain(&overflow, 2), Some(vec![1]));
    // A chain that leaves the buffer, starts at 0, or loops is refused.
    assert_eq!(follow_overflow_chain(&overflow, 9), None);
    assert_eq!(follow_overflow_chain(&overflow, 0), None);
    let looping = vec![0, 2, 1];
    assert_eq!(follow_overflow_chain(&looping, 1), None);
}
