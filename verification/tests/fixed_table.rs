use hashjoin::fixed_table::WritableFixedTable;
use hashjoin::group::{Group16, Group8, GroupStrategy};
use rand::rngs::StdRng;
use rand::{Rng, SeedableRng};

fn create_empty_table<G: GroupStrategy>() {
    let table = WritableFixedTable::<usize, G>::with_capacity(20);

    let read_table = table.to_read_only();
    assert_eq!(read_table.get(0), None);
    assert_eq!(read_table.get(123), None);
    assert_eq!(read_table.get(u64::MAX), None);
}

fn can_read_values<G: GroupStrategy>() {
    let mut table = WritableFixedTable::<usize, G>::with_capacity(20);
    table.insert(0, 10).unwrap();
    table.insert(123, 1230).unwrap();
    table.insert(u64::MAX, usize::MAX).unwrap();

    let read_table = table.to_read_only();
    assert_eq!(read_table.get(0).copied(), Some(10));
    assert_eq!(read_table.get(123).copied(), Some(1230));
    assert_eq!(read_table.get(u64::MAX).copied(), Some(usize::MAX));

    assert_eq!(read_table.get(456), None);
    assert_eq!(read_table.get(u64::MAX - 1), None);
}

fn can_read_overflowed_values<G: GroupStrategy>() {
    let mut table = WritableFixedTable::<usize, G>::with_capacity(20);
    // Store 17 numbers which all belong to the same initial chunk
    for i in 0..17u64 {
        table.insert(i << 32, i as usize).unwrap();
    }

    let read_table = table.to_read_only();
    for i in 0..17u64 {
        assert_eq!(read_table.get(i << 32).copied(), Some(i as usize));
    }
}

fn can_read_from_a_full_table<G: GroupStrategy>() {
    let mut table = WritableFixedTable::<usize, G>::with_capacity(64);
    let mut hashes = [0u64; 64];
    let mut rng = StdRng::seed_from_u64(123);
    rng.fill(&mut hashes[..]);

    for hash in hashes {
        table.insert(hash, hash as usize).unwrap();
    }

    let read_table = table.to_read_only();
    for hash in hashes {
        assert_eq!(read_table.get(hash).copied(), Some(hash as usize));
    }
}

fn write_returns_err_when_table_is_full<G: GroupStrategy>() {
    let mut table = WritableFixedTable::<usize, G>::with_capacity(64);
    let mut hashes = [0u64; 64];
    let mut rng = StdRng::seed_from_u64(123);
    rng.fill(&mut hashes[..]);

    for hash in hashes {
        table.insert(hash, hash as usize).unwrap();
    }

    assert_eq!(table.insert(1, 1), Err(()));
}

fn can_store_all_special_values<G: GroupStrategy>() {
    let pairs: Vec<_> = (56..64).map(|shift| 1u64 << shift).enumerate().collect();

    // Check that each of the special tag values can be stored in the same chunk without
    // colliding
    let mut table = WritableFixedTable::<usize, G>::with_capacity(16);
    for (value, hash) in pairs.iter() {
        table.insert(*hash, *value).unwrap();
    }

    let read_table = table.to_read_only();
    for (value, hash) in pairs.iter() {
        assert_eq!(read_table.get(*hash), Some(value));
    }
}

fn can_store_zero_hash<G: GroupStrategy>() {
    let mut table = WritableFixedTable::<usize, G>::with_capacity(64);
    assert_eq!(table.insert(0, 100), Ok(None));
    for i in 1..64 {
        assert_eq!(table.insert(i, i as usize), Ok(None));
    }

    let read_table = table.to_read_only();
    assert_eq!(read_table.get(0).copied(), Some(100));
}

fn can_detect_duplicates<G: GroupStrategy>() {
    let mut table = WritableFixedTable::<usize, G>::with_capacity(64);
    assert_eq!(table.insert(1, 1), Ok(None));
    assert_eq!(table.insert(1, 2), Ok(Some(1)));
    assert_eq!(table.insert(4023, 4), Ok(None));
    assert_eq!(table.insert(1, 5), Ok(Some(2)));
    assert_eq!(table.insert(4023, 6), Ok(Some(4)));
}

#[test]
fn fixed_table_create_empty_table() {
    create_empty_table::<Group16>();
    create_empty_table::<Group8>();
}

#[test]
fn fixed_table_can_read_values() {
    can_read_values::<Group16>();
    can_read_values::<Group8>();
}

#[test]
fn fixed_table_can_read_overflowed_values() {
    can_read_overflowed_values::<Group16>();
    can_read_overflowed_values::<Group8>();
}

#[test]
fn fixed_table_can_read_from_a_full_table() {
    can_read_from_a_full_table::<Group16>();
    can_read_from_a_full_table::<Group8>();
}

#[test]
fn fixed_table_write_returns_err_when_table_is_full() {
    write_returns_err_when_table_is_full::<Group16>();
    write_returns_err_when_table_is_full::<Group8>();
}

#[test]
fn fixed_table_can_store_all_special_values() {
    can_store_all_special_values::<Group16>();
    can_store_all_special_values::<Group8>();
}

#[test]
fn fixed_table_can_store_zero_hash() {
    can_store_zero_hash::<Group16>();
    can_store_zero_hash::<Group8>();
}

#[test]
fn fixed_table_can_detect_duplicates() {
    can_detect_duplicates::<Group16>();
    can_detect_duplicates::<Group8>();
}

#[test]
fn can_read_overflowed_values_in_bulk() {
    let mut table = WritableFixedTable::<usize, Group16>::with_capacity(20);
    // Store 17 numbers which all belong to the same initial chunk
    let pairs: Vec<_> = (0..17u64).map(|i| (i << 32, i as usize)).collect();
    for (hash, value) in &pairs {
        table.insert(*hash, *value).unwrap();
    }

    let read_table = table.to_read_only();
    let values = read_table.get_in_bulk(&pairs.iter().map(|(hash, _)| *hash).collect::<Vec<_>>());
    for (found, (_, value)) in values.into_iter().zip(pairs.iter()) {
        assert_eq!(found, Some(value));
    }
}

#[test]
fn entries_list_the_slots_of_a_single_group() {
    let mut table = WritableFixedTable::<usize, Group8>::with_capacity(8);
    let hashes = [0x0200_0000_0000_0001u64, 0x7F00_0000_0000_0042, 0xFE12_3456_789A_BCDE];
    for (i, hash) in hashes.iter().enumerate() {
        table.insert(*hash, i + 1).unwrap();
    }
    let mut it = table.entries();
    let mut listed = Vec::new();
    while let Some(entry) = it.next() {
        listed.push(entry);
    }
    listed.sort();
    let mut expected: Vec<(u64, usize)> = hashes.iter().enumerate().map(|(i, h)| (*h, i + 1)).collect();
    expected.sort();
    assert_eq!(listed, expected);
}

#[test]
fn entries_repeat_the_first_groups_positions_in_every_group() {
    let mut table = WritableFixedTable::<usize, Group8>::with_capacity(16);
    table.insert(0x0300_0000_0000_0000, 5).unwrap();
    let mut it = table.entries();
    let mut count = 0;
    while it.next().is_some() {
        count += 1;
    }
    // One occupied position, listed once for each of the two groups, when the
    // hash landed in the first group; none when it landed in the second.
    assert!(count == 2 || count == 0);
}

#[test]
fn bulk_lookups_agree_with_single_lookups() {
    let mut table = WritableFixedTable::<usize, Group8>::with_capacity(64);
    let mut rng = StdRng::seed_from_u64(7);
    let mut hashes = [0u64; 32];
    for (i, hash) in hashes.iter_mut().enumerate() {
        *hash = rng.gen::<u64>();
        if i % 2 == 0 {
            table.insert(*hash, i + 100).unwrap();
        }
    }
    let read = table.to_read_only();

    let mut first8 = [0u64; 8];
    first8.copy_from_slice(&hashes[..8]);
    let got8 = read.get_in_bulk_static_8(&first8);
    for i in 0..8 {
        assert_eq!(got8[i].copied(), read.get(first8[i]).copied());
        assert_eq!(got8[i].copied(), if i % 2 == 0 { Some(i + 100) } else { None });
    }

    let got32 = read.get_in_bulk_static_32(&hashes);
    for i in 0..32 {
        assert_eq!(got32[i].copied(), if i % 2 == 0 { Some(i + 100) } else { None });
    }

    let mut out_n = [None; 32];
    read.get_in_bulk_static_n(&hashes, &mut out_n);
    let mut out_n_b = [Some(0usize); 32];
    read.get_in_bulk_static_n_b(&hashes, &mut out_n_b);
    for i in 0..32 {
        let expected = if i % 2 == 0 { Some(i + 100) } else { None };
        assert_eq!(out_n[i], expected);
        assert_eq!(out_n_b[i], expected);
    }
}

#[test]
fn lookup_stats_count_groups_and_tag_matches() {
    let mut table = WritableFixedTable::<usize, Group8>::with_capacity(32);
    // Seventeen keys with the same tag and the same first group.
    for i in 0..17u64 {
        table.insert(i << 32, i as usize).unwrap();
    }
    let read_table = table.to_read_only();

    let (found, steps, false_positives) = read_table.get_with_stats(0);
    assert_eq!((found.copied(), steps, false_positives), (Some(0), 0, 0));

    // The ninth key sits at the start of the second group, after eight
    // slots with its tag.
    let (found, steps, false_positives) = read_table.get_with_stats(8 << 32);
    assert_eq!((found.copied(), steps, false_positives), (Some(8), 1, 8));

    // A missing key with the same tag passes two full groups and stops at
    // the third, which holds one key with its tag and empty slots.
    let (found, steps, false_positives) = read_table.get_with_stats(100 << 32);
    assert_eq!((found.copied(), steps, false_positives), (None, 2, 17));
}
