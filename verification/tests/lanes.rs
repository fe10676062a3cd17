use hashjoin::fixed_table::WritableFixedTable;
use hashjoin::group::{BulkGroupStrategyN, Group4, Group8, Group8SwissPlus};
use hashjoin::lanes::{
    compress_match_result, interleave_x4, interleave_x4_b, interleave_x4_c, interleave_x4_d, load_ptr_halved,
    load_x4_d,
};

#[test]
fn test_a() {
    let search_tags = [1, 2, 3, 4];
    let values = interleave_x4(search_tags);
    assert_eq!(values, [
        1, 1, 1, 1, 2, 2, 2, 2, 3, 3, 3, 3, 4, 4, 4, 4,
    ]);
}

#[test]
fn test_b() {
    let search_tags = [1, 2, 3, 4];
    let values = interleave_x4_b(&search_tags);
    assert_eq!(values, [
        1, 1, 1, 1, 2, 2, 2, 2, 3, 3, 3, 3, 4, 4, 4, 4,
    ]);
}

#[test]
fn test_c() {
    let search_tags = [1, 2, 3, 4];
    let values = interleave_x4_c(search_tags);
    assert_eq!(values, [
        1, 1, 1, 1, 2, 2, 2, 2, 3, 3, 3, 3, 4, 4, 4, 4,
    ]);
}

#[test]
fn test_d() {
    let search_tags = [1, 2, 3, 4];
    let values = interleave_x4_d(&search_tags);
    assert_eq!(values, [
        1, 1, 1, 1, 2, 2, 2, 2, 3, 3, 3, 3, 4, 4, 4, 4,
    ]);
}

#[test]
fn interleavings_agree_on_other_tags() {
    let search_tags = [0xFF, 0, 0x80, 7];
    let expected = interleave_x4_d(&search_tags);
    assert_eq!(interleave_x4(search_tags), expected);
    assert_eq!(interleave_x4_b(&search_tags), expected);
    assert_eq!(interleave_x4_c(search_tags), expected);
    assert_eq!(expected[4..8], [0, 0, 0, 0]);
}

#[test]
fn load_x4_d_puts_groups_one_after_the_other() {
    let groups = [[1, 2, 3, 4], [5, 6, 7, 8], [9, 10, 11, 12], [13, 14, 15, 16]];
    assert_eq!(load_x4_d(&groups), [1, 2, 3, 4, 5, 6, 7, 8, 9, 10, 11, 12, 13, 14, 15, 16]);
}

#[test]
fn compress_reads_only_the_first_pair_of_lanes() {
    assert_eq!(compress_match_result([0, 0, 0, 0, 0, 0, 0, 0]), 0);
    assert_eq!(compress_match_result([0xFF, 0, 0, 0, 0, 0, 0, 0]), 0x55);
    assert_eq!(compress_match_result([0, 0xFF, 0, 0, 0, 0, 0, 0]), 0xFF);
    assert_eq!(compress_match_result([0xFF, 0xFF, 0, 0, 0, 0, 0, 0]), 0xFF);
    assert_eq!(compress_match_result([0, 0, 0xFF, 0xFF, 0xFF, 0xFF, 0xFF, 0xFF]), 0);
    // Any lane values: the first pair, shifted right by seven and narrowed.
    assert_eq!(compress_match_result([0x80, 0, 0, 0, 0, 0, 0, 0]), 0x55);
    assert_eq!(compress_match_result([0x7F, 0, 0xFF, 0, 0, 0, 0, 0]), 0);
    assert_eq!(compress_match_result([0, 1, 0, 0, 0, 0, 0, 0]), 0xAA);
}

#[test]
fn compressed_group_matches() {
    let group = Group8::load(&[5, 9, 5, 5, 5, 5, 5, 5], 0);
    assert_eq!(group.match_tag_as_u8(5), 0x55);
    assert_eq!(group.match_tag_as_u8(9), 0xFF);
    assert_eq!(group.match_tag_as_u8(7), 0);
    let group = Group8::load(&[1, 2, 3, 4, 7, 7, 7, 7], 0);
    assert_eq!(group.match_tag_as_u8(7), 0);

    let group = Group8SwissPlus::load(&[0x80, 3, 0x80, 0x80, 0x80, 0x80, 0x80, 0x80], 0);
    assert_eq!(group.find_as_u8(3), 0xFF);
    assert_eq!(group.find_as_u8(0x80), 0x55);

    assert_eq!(Group4::match_tag_as_u8(&[3, 4, 3, 3], 3), 0x55);
    assert_eq!(Group4::match_tag_as_u8(&[3, 4, 3, 3], 4), 0xFF);
    assert_eq!(Group4::match_tag_as_u8(&[3, 4, 3, 3], 0), 0);

    assert_eq!(load_ptr_halved(5, &[5, 5, 0, 0, 0, 0, 0, 0, 99]), 0xFF);
    assert_eq!(load_ptr_halved(0, &[5, 5, 0, 0, 0, 0, 0, 0]), 0);
}

#[test]
fn group4_compares_whole_blocks_of_four() {
    let groups = [[1, 2, 3, 4], [5, 5, 0, 0], [9, 9, 9, 9], [0, 0, 0, 7], [1, 1, 1, 1], [2, 0, 2, 0]];
    let search_tags = [3, 5, 8, 7, 1, 2];
    let matches = Group4::match_tag_n(&groups, &search_tags);
    let positions: Vec<Vec<usize>> = matches
        .into_iter()
        .map(|mut it| {
            let mut found = Vec::new();
            while let Some(p) = it.next() {
                found.push(p);
            }
            found
        })
        .collect();
    assert_eq!(positions, vec![vec![2], vec![0, 1], vec![], vec![3], vec![], vec![]]);
}

#[test]
fn group4_bulk_lookups_leave_out_the_tail_block() {
    let mut table = WritableFixedTable::<usize, Group4>::with_capacity(64);
    // Six keys whose first groups are far apart, each stored in it.
    let hashes: [u64; 6] = [0, 8, 16, 24, 32, 40];
    for (i, hash) in hashes.iter().enumerate() {
        table.insert(*hash, i + 10).unwrap();
    }
    let read = table.to_read_only();
    for (i, hash) in hashes.iter().enumerate() {
        assert_eq!(read.get(*hash).copied(), Some(i + 10));
    }

    let mut out = [None; 6];
    read.get_in_bulk_static_n_b(&hashes, &mut out);
    assert_eq!(out, [Some(10), Some(11), Some(12), Some(13), None, None]);

    let mut out8 = [None; 8];
    let hashes8: [u64; 8] = [0, 8, 16, 24, 32, 40, 48, 56];
    read.get_in_bulk_static_n_b(&hashes8, &mut out8);
    assert_eq!(out8, [Some(10), Some(11), Some(12), Some(13), Some(14), Some(15), None, None]);
}
