use hashjoin::global_index_tracker::Offset;
use hashjoin::histogram_local_accumulate::{
    locally_accumulate_input_into_histogram, new_histogram_buckets, ChainItem, HistogramEntry, OrderedBuffer,
};
use std::collections::BTreeMap;

fn accumulate(thread_index: usize, bucket_count: usize, inputs: Vec<Vec<u64>>) -> (Vec<BTreeMap<u64, HistogramEntry>>, Vec<OrderedBuffer>) {
    let mut tracker = Offset { index: 0, size: 0 };
    let mut buckets = new_histogram_buckets(bucket_count);
    let mut overflow = Vec::new();
    for input in inputs {
        let offset = tracker.allocate(input.len());
        overflow.push(locally_accumulate_input_into_histogram(thread_index, offset, input, &mut buckets));
    }
    (buckets, overflow)
}

#[test]
fn single_threaded_without_duplicates() {
    let data = vec![vec![1, 2, 3], vec![4, 5, 6]];
    let (buckets, overflow) = accumulate(0, 16, data);

    assert_eq!(overflow, vec![
        OrderedBuffer { global_buffer_index: 0, buffer_data: vec![0, 0, 0] },
        OrderedBuffer { global_buffer_index: 1, buffer_data: vec![0, 0, 0] },
    ]);

    for i in 1usize..=6 {
        let mut expected = BTreeMap::new();
        expected.insert(i as u64, HistogramEntry {
            hash: i as u64,
            value: i,
            end_of_chain: ChainItem {
                thread_index: 0,
                buffer_index: if i <= 3 { 0 } else { 1 },
                vec_index: i - if i <= 3 { 1 } else { 4 },
            },
        });
        assert_eq!(buckets[i], expected);
    }
}

#[test]
fn single_threaded_with_duplicates() {
    let data = vec![vec![1, 2, 3], vec![1, 2, 1]];
    let (buckets, overflow) = accumulate(0, 16, data);

    assert_eq!(overflow, vec![
        OrderedBuffer { global_buffer_index: 0, buffer_data: vec![0, 0, 0] },
        OrderedBuffer { global_buffer_index: 1, buffer_data: vec![1, 2, 4] },
    ]);

    let mut expected = BTreeMap::new();
    expected.insert(1, HistogramEntry {
        hash: 1,
        value: 6,
        end_of_chain: ChainItem { thread_index: 0, buffer_index: 0, vec_index: 0 },
    });
    assert_eq!(buckets[1], expected);

    let mut expected = BTreeMap::new();
    expected.insert(2, HistogramEntry {
        hash: 2,
        value: 5,
        end_of_chain: ChainItem { thread_index: 0, buffer_index: 0, vec_index: 1 },
    });
    assert_eq!(buckets[2], expected);
}

#[test]
fn hashes_share_a_bucket_by_their_low_bits() {
    let (buckets, _) = accumulate(3, 4, vec![vec![1, 5, 9, 5]]);
    assert_eq!(buckets[1].len(), 3);
    assert!(buckets[0].is_empty() && buckets[2].is_empty() && buckets[3].is_empty());
    assert_eq!(buckets[1][&5].value, 4);
    assert_eq!(buckets[1][&5].end_of_chain, ChainItem { thread_index: 3, buffer_index: 0, vec_index: 1 });
}

#[test]
fn duplicates_chain_back_to_the_first_occurrence() {
    let (buckets, overflow) = accumulate(0, 2, vec![vec![7, 7, 7]]);
    // Latest occurrence has insertion index 3; it points to 2, which points to 1, which ends the chain.
    assert_eq!(buckets[1][&7].value, 3);
    assert_eq!(overflow[0].buffer_data, vec![0, 1, 2]);
}

#[test]
fn offsets_follow_each_other() {
    let mut tracker = Offset { index: 0, size: 0 };
    let first = tracker.allocate(3);
    let second = tracker.allocate(5);
    assert_eq!((first.index, first.size), (0, 0));
    assert_eq!((second.index, second.size), (1, 3));
    assert_eq!((tracker.index, tracker.size), (2, 8));
}
