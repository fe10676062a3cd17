use hashjoin::group::{BulkGroupStrategy, BulkGroupStrategyN, Group8};

#[test]
fn test() {
    let search_tags = [
        0b00000001,
        0b00000010,
        0b00000100,
        0b00001000,
        0b00010000,
        0b00100000,
        0b01000000,
        0b10000000
    ];

    let data = [
        0b00000001,
        0b00000010,
        0b00000100,
        0b00001000,
        0b00001000,
        0b00000100,
        0b00000010,
        0b00000001
    ];
    let groups = vec![Group8::load(&data, 0); 8];

    let iterators = Group8::match_tag_n(&groups, &search_tags);
    let indices: Vec<Vec<usize>> = iterators
        .into_iter()
        .map(|mut it| {
            let mut positions = Vec::new();
            while let Some(position) = it.next_set_index() {
                positions.push(position);
            }
            positions
        })
        .collect();
    assert_eq!(indices, vec![
        vec![0, 7],
        vec![1, 6],
        vec![2, 5],
        vec![3, 4],
        vec![],
        vec![],
        vec![],
        vec![],
    ])
}

#[test]
fn test_get_tags() {
    let mut hashes = [0u64; 8];
    for (index, hash) in hashes.iter_mut().enumerate() {
        *hash = 1 << (55 + index);
    }

    let tags = <Group8 as BulkGroupStrategy>::get_tags(&hashes);
    assert_eq!(tags, [1, 1, 2, 4, 8, 16, 32, 64]);
}
