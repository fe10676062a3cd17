use hashjoin::ideal_probe_chains::{initialize_table, FollySeq, Hybrid, ProbeSeq, Table, TriangleProbe};
use rand::rngs::StdRng;
use rand::{Rng, SeedableRng};
use std::collections::HashSet;

#[test]
fn test_hybrid_sequence() {
    const GROUP_SIZE: usize = 8;
    let mut rng = StdRng::seed_from_u64(0);

    let table_capacities: Vec<_> = (3..16).map(|p| 2usize.pow(p)).collect();
    let hashes: Vec<_> = (0..10000).map(|_| rng.gen::<u64>()).collect();

    for table_capacity in table_capacities {
        let chunks = table_capacity / GROUP_SIZE;
        for hash in &hashes {
            let mut covered_indices = vec![false; table_capacity];
            let (mut index, mut state) = Hybrid::<GROUP_SIZE>::start(*hash, table_capacity);
            for _ in 0..chunks {
                for offset in 0..GROUP_SIZE {
                    covered_indices[(index + offset) % table_capacity] = true;
                }

                index = Hybrid::<GROUP_SIZE>::next(index, &mut state, table_capacity);
            }

            for (index, covered) in covered_indices.iter().enumerate() {
                assert!(covered, "Expected all indices to be visited, index {} was not. Table size {}, State {:?}", index, table_capacity, state);
            }
        }
    }
}

fn distinct_hashes(count: usize, seed: u64) -> Vec<u64> {
    let mut rng = StdRng::seed_from_u64(seed);
    let mut seen = HashSet::new();
    let mut hashes = Vec::new();
    while hashes.len() < count {
        let hash = rng.gen::<u64>();
        if seen.insert(hash) {
            hashes.push(hash);
        }
    }
    hashes
}

fn finds_every_hash<P: ProbeSeq, const G: usize, const T: usize>() {
    let capacity = 1024;
    let hashes = distinct_hashes(capacity / 2, 0);
    let table = initialize_table::<G, T, P>(capacity, &hashes);
    assert_eq!(table.capacity(), capacity);
    for hash in &hashes {
        assert!(table.get(*hash).0, "Could not find hash {}", hash);
    }
    let misses = distinct_hashes(capacity / 2, 1);
    for hash in &misses {
        if !hashes.contains(hash) {
            assert!(!table.get(*hash).0);
        }
    }
}

#[test]
fn every_probe_sequence_finds_inserted_hashes() {
    finds_every_hash::<TriangleProbe<8>, 8, 8>();
    finds_every_hash::<TriangleProbe<8>, 8, 7>();
    finds_every_hash::<FollySeq<8, true>, 8, 8>();
    finds_every_hash::<FollySeq<8, false>, 8, 8>();
    finds_every_hash::<FollySeq<8, false>, 8, 7>();
    finds_every_hash::<Hybrid<8>, 8, 8>();
    finds_every_hash::<Hybrid<8>, 8, 7>();
    finds_every_hash::<TriangleProbe<16>, 16, 8>();
    finds_every_hash::<FollySeq<16, true>, 16, 8>();
    finds_every_hash::<Hybrid<16>, 16, 7>();
}

#[test]
fn insert_refuses_duplicates_and_full_probes() {
    let mut table = Table::<8, 8, Hybrid<8>>::new(16);
    assert!(table.insert(42));
    assert!(!table.insert(42));
    assert!(table.get(42).0);
    assert!(!table.get(43).0);
    // Sixteen slots hold sixteen distinct hashes; the seventeenth finds no room.
    let hashes = distinct_hashes(15, 7);
    for hash in &hashes {
        if *hash != 42 {
            assert!(table.insert(*hash));
        }
    }
    assert!(!table.insert(0xDEAD_BEEF_0000_0001));
    assert!(!table.get(0xDEAD_BEEF_0000_0001).0);
}

#[test]
fn hashes_that_share_tag_and_low_bits_are_told_apart() {
    // Bit 62 and bit 63 are the only difference; with eight tag bits the tag
    // tells them apart.
    let mut table = Table::<8, 8, TriangleProbe<8>>::new(64);
    let a = 0x0000_0000_0000_1234u64;
    let b = 0x4000_0000_0000_1234u64;
    let c = 0x8000_0000_0000_1234u64;
    assert!(table.insert(a));
    assert!(table.insert(b));
    assert!(table.insert(c));
    assert!(table.get(a).0 && table.get(b).0 && table.get(c).0);
    assert!(!table.get(0xC000_0000_0000_1234).0);
}

#[test]
fn lookup_counts_steps_and_false_positives() {
    let table = Table::<8, 8, TriangleProbe<8>>::new(64);
    let (found, stats) = table.get(7);
    assert!(!found);
    assert_eq!(stats.probe_length, 0);
    assert_eq!(stats.false_positives, 0);
}

#[test]
fn lookup_counts_tag_matches_before_the_hash() {
    let mut table = Table::<8, 8, TriangleProbe<8>>::new(64);
    // Three hashes with the same tag, all starting at slot 0.
    let hashes: Vec<u64> = (0..3u64).map(|i| (1u64 << 56) | (i << 8)).collect();
    for hash in &hashes {
        assert!(table.insert(*hash));
    }
    let (found, stats) = table.get(hashes[2]);
    assert!(found);
    assert_eq!((stats.probe_length, stats.false_positives), (0, 2));
    let (found, stats) = table.get((1u64 << 56) | (5 << 8));
    assert!(!found);
    assert_eq!((stats.probe_length, stats.false_positives), (0, 3));
}

#[test]
fn folly_overflow_bit_marks_stepped_past_groups() {
    // A table of two groups: fill the first group that a hash probes, then
    // the next insertion with the same start steps past it.
    let mut table = Table::<8, 8, FollySeq<8, true>>::new(16);
    let mut inserted = Vec::new();
    // Hashes whose low bits are 0 start at group 0; the top byte sets the stride.
    for i in 0..9u64 {
        let hash = (i << 8) | (1u64 << 56);
        assert!(table.insert(hash));
        inserted.push(hash);
    }
    for hash in &inserted {
        assert!(table.get(*hash).0);
    }
}
