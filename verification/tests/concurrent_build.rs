use hashjoin::concurrent_build::{get_insertion_index, pretend_to_write_hashes_to_map, LocalTablePartitioner};
use rand::{RngCore, SeedableRng};

#[test]
fn applies_mask_and_reverses_bits() {
    let partitioner = LocalTablePartitioner::new(0b1000);
    assert_eq!(partitioner.get_local_table_partition(0b001), 0b100);
    assert_eq!(partitioner.get_local_table_partition(0b1100101001), 0b100);
    assert_eq!(partitioner.get_local_table_partition(0b1011), 0b110);
}

#[test]
fn is_safe() {
    let partitioner = LocalTablePartitioner::new(4);
    for i in 1..=6 {
        partitioner.get_local_table_partition(i);
    }
}

#[test]
fn extracts_original_hash_from_partition() {
    let partitioner = LocalTablePartitioner::new(0b1000);
    assert_eq!(partitioner.get_masked_hash_in_partition(0b001), 0b100);
    assert_eq!(partitioner.get_masked_hash_in_partition(0b100), 0b001);
    assert_eq!(partitioner.get_masked_hash_in_partition(0b110), 0b011);
}

#[test]
fn transforms_hash() {
    let partitioner = LocalTablePartitioner::new(0b100000);

    // A single hard coded test. Top 7 bits are unchanged. Lower 5 bits should move to the top
    let original = 0b10110010_00000000_11111111_00000000_00000000_00000000_00000000_00010111;
    let new_bits = 0b10110011_01110000_00000111_11111000_00000000_00000000_00000000_00000000;
    assert_eq!(
        partitioner.get_transformed_hash(original),
        new_bits,
        "Original:    {:#064b}\nTransformed: {:#064b}\nExpected:    {:#064b}",
        original,
        partitioner.get_transformed_hash(original),
        new_bits,
    );

    // Now some randomly generated tests
    let mut rng = rand::rngs::StdRng::seed_from_u64(1234);
    let random_hashes = (0..16).map(|_| rng.next_u64()).collect::<Vec<_>>();
    for hash in random_hashes {
        // Mask of the top 7 bits which are the SIMD tag
        let tag_mask = u64::MAX >> (64 - 7) << (64 - 7);
        // Mask of the bottom 5 bits which are part of the partitioning scheme
        let partition_mask = 0b11111;

        let transformed_hash = partitioner.get_transformed_hash(hash);
        // Top 7 bits should be the same
        assert_eq!(transformed_hash & tag_mask, hash & tag_mask);
        // Next bits after the top 7 should be the same as the original lowest bits
        assert_eq!(transformed_hash >> (64 - 7 - 5) & partition_mask, hash & partition_mask);
        // Lowest transformed bits should be the same as the original non partition bits
        assert_eq!(transformed_hash << 7 << 5 >> 5 >> 7, hash << 7 >> 7 >> 5);
    }
}

#[test]
fn test_get_insertion_index() {
    assert_eq!(get_insertion_index(10, 10), 21);
}

#[test]
fn pretend_writes_claim_free_slots_along_the_probe() {
    let partitioner = LocalTablePartitioner::new(8);
    // Partition 0b001 holds the hashes whose low bits are 0b100.
    let mut occupied = vec![false; 16];
    occupied[5] = true;
    let claimed = pretend_to_write_hashes_to_map(&partitioner, 15, 0b001, 3, &mut occupied);
    assert_eq!(claimed, vec![4, 6, 7]);
    assert!(occupied[4] && occupied[5] && occupied[6] && occupied[7]);
    assert!(!occupied[8]);

    // Nothing to write claims nothing.
    let before = occupied.clone();
    assert!(pretend_to_write_hashes_to_map(&partitioner, 15, 0b001, 0, &mut occupied).is_empty());
    assert_eq!(occupied, before);
}

#[test]
fn pretend_writes_move_on_to_later_groups() {
    let partitioner = LocalTablePartitioner::new(8);
    let mut occupied = vec![false; 16];
    // The first group of the probe from slot 4 is slots 4..12; fill it.
    for i in 4..12 {
        occupied[i] = true;
    }
    let claimed = pretend_to_write_hashes_to_map(&partitioner, 15, 0b001, 2, &mut occupied);
    // The next group starts 8 slots on, at 12, and wraps round the table.
    assert_eq!(claimed, vec![12, 13]);
}
