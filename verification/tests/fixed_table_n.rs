use hashjoin::fixed_table_n::{get_positional_overflow_bit_or_mask, overwrite_overflow_bit, FixedTable8, OVERFLOW_BIT_MASK};
use rand::rngs::StdRng;
use rand::{Rng, SeedableRng};
use std::collections::HashSet;

#[test]
fn get_positional_overflow_bit_or_mask_works() {
    for i in 0..=14 {
        assert_eq!(get_positional_overflow_bit_or_mask(i), 0);
    }
    assert_eq!(get_positional_overflow_bit_or_mask(15), 1 << 63);
}

#[test]
fn overwrite_overflow_bit_works() {
    assert_eq!(overwrite_overflow_bit(0, 0), 0);
    assert_eq!(overwrite_overflow_bit(123, 0), 123);
    assert_eq!(overwrite_overflow_bit(123 & OVERFLOW_BIT_MASK, 0), 0);
    assert_eq!(overwrite_overflow_bit(123 & OVERFLOW_BIT_MASK, 0b1000_0000), 0 | OVERFLOW_BIT_MASK);
    assert_eq!(overwrite_overflow_bit(123, 0b1000_0000), 123 | OVERFLOW_BIT_MASK);
}

#[test]
fn fixed_table_n_create_empty_table() {
    let table = FixedTable8::<usize>::new_with_capacity(20);
    assert_eq!(table.size(), 32);

    let read_table = table.to_read_only();
    assert_eq!(read_table.get(0), None);
    assert_eq!(read_table.get(123), None);
    assert_eq!(read_table.get(u64::MAX), None);
}

#[test]
fn fixed_table_n_can_read_values() {
    let mut table = FixedTable8::<usize>::new_with_capacity(20);
    table.write(0, 10).unwrap();
    table.write(123, 1230).unwrap();
    table.write(u64::MAX, usize::MAX).unwrap();

    let read_table = table.to_read_only();
    assert_eq!(read_table.get(0).copied(), Some(10));
    assert_eq!(read_table.get(123).copied(), Some(1230));
    assert_eq!(read_table.get(u64::MAX).copied(), Some(usize::MAX));

    assert_eq!(read_table.get(456), None);
    assert_eq!(read_table.get(u64::MAX - 1), None);
}

#[test]
fn fixed_table_n_can_read_overflowed_values() {
    let mut table = FixedTable8::<usize>::new_with_capacity(20);
    // Store 17 numbers which all belong to the same initial chunk
    for i in 0..17u64 {
        table.write(i << 32, i as usize).unwrap();
    }

    let read_table = table.to_read_only();
    for i in 0..17u64 {
        assert_eq!(read_table.get(i << 32).copied(), Some(i as usize));
    }
}

#[test]
fn fixed_table_n_can_read_from_a_full_table() {
    let mut table = FixedTable8::<usize>::new_with_capacity(64);
    let mut hashes = [0u64; 64];
    let mut rng = StdRng::seed_from_u64(123);
    rng.fill(&mut hashes[..]);

    for hash in hashes {
        table.write(hash, hash as usize).unwrap();
    }

    let read_table = table.to_read_only();
    for hash in hashes {
        assert_eq!(read_table.get(hash).copied(), Some(hash as usize));
    }
}

#[test]
fn fixed_table_n_write_returns_err_when_table_is_full() {
    let mut table = FixedTable8::<usize>::new_with_capacity(64);
    let mut hashes = [0u64; 64];
    let mut rng = StdRng::seed_from_u64(123);
    rng.fill(&mut hashes[..]);

    for hash in hashes {
        table.write(hash, hash as usize).unwrap();
    }

    assert_eq!(table.write(1, 1), Err(()));
}

#[test]
fn fixed_table_n_can_store_all_special_values() {
    let pairs: Vec<_> = (56..64).map(|shift| 1u64 << shift).enumerate().collect();

    // Check that each of the special tag values can be stored in the same chunk without
    // colliding
    let mut table = FixedTable8::<usize>::new_with_capacity(16);
    for (value, hash) in pairs.iter() {
        table.write(*hash, *value).unwrap();
    }

    let read_table = table.to_read_only();
    for (value, hash) in pairs.iter() {
        assert_eq!(read_table.get(*hash), Some(value));
    }
}

#[test]
fn fixed_table_n_can_store_zero_hash() {
    let mut table = FixedTable8::<usize>::new_with_capacity(64);
    assert_eq!(table.write(0, 100), Ok(None));
    for i in 1..64 {
        assert_eq!(table.write(i, i as usize), Ok(None));
    }

    let read_table = table.to_read_only();
    assert_eq!(read_table.get(0).copied(), Some(100));
}

#[test]
fn fixed_table_n_can_detect_duplicates() {
    let mut table = FixedTable8::<usize>::new_with_capacity(64);
    assert_eq!(table.write(1, 1), Ok(None));
    assert_eq!(table.write(1, 2), Ok(Some(1)));
    assert_eq!(table.write(4023, 4), Ok(None));
    assert_eq!(table.write(1, 5), Ok(Some(2)));
    assert_eq!(table.write(4023, 6), Ok(Some(4)));
}

#[test]
fn fixed_table_n_entries_lists_written_values() {
    let mut table = FixedTable8::<usize>::new_with_capacity(16);
    table.write(5, 50).unwrap();
    table.write(0x0300_0000_0000_0007, 70).unwrap();
    // The rebuilt hash takes its top byte from the tag, which is at least 1.
    let entries = table.entries();
    assert_eq!(entries, vec![(0x0100_0000_0000_0005, 50), (0x0300_0000_0000_0007, 70)]);
}

#[test]
fn fixed_table_n_write_using_buffers_matches_write() {
    let mut table = FixedTable8::<usize>::new_with_capacity(16);
    let mut loaded_tags = [0u8; 8];
    let mut match_output = [0u8; 8];
    assert_eq!(table.write_using_buffers(9, 90, &mut loaded_tags, &mut match_output), Ok(None));
    assert_eq!(table.write_using_buffers(9, 91, &mut loaded_tags, &mut match_output), Ok(Some(90)));
    let read_table = table.to_read_only();
    assert_eq!(read_table.get(9).copied(), Some(91));
}

#[test]
fn fixed_table_n_measure_get_stats_counts_chunks() {
    let mut table = FixedTable8::<usize>::new_with_capacity(16);
    table.write(3, 30).unwrap();
    let read_table = table.to_read_only();
    let (found, stats) = read_table.measure_get_stats(3);
    assert_eq!(found.copied(), Some(30));
    assert_eq!(stats.chunks_accessed, 1);
    assert_eq!(stats.tag_false_positives, 0);
    let (missing, stats) = read_table.measure_get_stats(4);
    assert_eq!(missing, None);
    assert_eq!(stats.chunks_accessed, 1);
}

#[test]
fn probe_sequence() {
    let mut rng = StdRng::seed_from_u64(123);
    let mut hashes = [0u64; 128];
    rng.fill(&mut hashes[..]);

    for chunk_count in [2, 4, 16, 128, 4096] {
        for hash in hashes {
            let top_8_bits = (hash >> 56) as u8;
            let stride_width = (top_8_bits as usize).wrapping_mul(2).wrapping_add(1);
            let mut index = hash as usize;

            let mut visited = HashSet::with_capacity(chunk_count);
            for _ in 0..chunk_count {
                let chunk_index = index % chunk_count;
                assert!(!visited.contains(&chunk_index), "Hash {}, stride width {}, chunk count {}, index {}, visited {:?}", hash, stride_width, chunk_count, index, visited);
                visited.insert(chunk_index);
                index = index.wrapping_add(stride_width);
            }
        }
    }
}
