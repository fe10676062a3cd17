use hashjoin::concurrent_build::LocalTablePartitioner;
use hashjoin::global_index_tracker::Offset;
use hashjoin::local_tables::{
    locally_accumulate_input, merge_owned_partitions_and_update_counts, new_local_tables,
    write_local_overflow_buffers_to_global_buffer, LocalEntry, LocalTable, OrderedOverflowBuffer,
};
use hashjoin::lookup::follow_overflow_chain;
use std::sync::Arc;

fn accumulate_locally(table_count: usize, inputs: Vec<Vec<u64>>) -> (Vec<LocalTable>, Vec<OrderedOverflowBuffer>) {
    let mut tracker = Offset { index: 0, size: 0 };
    accumulate_locally_with(&mut tracker, table_count, inputs)
}

fn accumulate_locally_with(tracker: &mut Offset, table_count: usize, inputs: Vec<Vec<u64>>) -> (Vec<LocalTable>, Vec<OrderedOverflowBuffer>) {
    let partitioner = LocalTablePartitioner::new(table_count);
    let mut tables = new_local_tables(table_count);
    let mut overflows = vec![];
    for input in inputs {
        let global_offset = tracker.allocate(input.len());
        let mut overflow = vec![0usize; input.len()];
        locally_accumulate_input(global_offset, input, &partitioner, &mut tables, &mut overflow);
        overflows.push(OrderedOverflowBuffer {
            global_offset: global_offset.size,
            global_index: global_offset.index,
            buffer: overflow,
        });
    }
    (tables, overflows)
}

#[test]
fn hashes_are_partitioned() {
    let (tables, _overflows) = accumulate_locally(4, vec![vec![1, 2, 3], vec![4, 5, 6]]);

    let partitioner = LocalTablePartitioner::new(4);
    for i in 1u64..=6 {
        assert_eq!(
            tables[partitioner.get_local_table_partition(i)].find(partitioner.get_transformed_hash(i)),
            Some(LocalEntry {
                transformed_hash: partitioner.get_transformed_hash(i),
                hash: i,
                global_index: i as usize,
                end_of_chain: i as usize,
            }),
        );
    }
}

#[test]
fn each_input_creates_an_overflow() {
    let (_tables, overflows) = accumulate_locally(4, vec![vec![1, 2, 3], vec![4, 5, 6]]);

    assert_eq!(overflows, vec![
        OrderedOverflowBuffer { global_index: 0, global_offset: 0, buffer: vec![0; 3] },
        OrderedOverflowBuffer { global_index: 1, global_offset: 3, buffer: vec![0; 3] },
    ]);
}

#[test]
fn duplicate_hashes_are_written_to_the_overflows() {
    let (tables, overflows) = accumulate_locally(4, vec![vec![1, 2, 1], vec![1, 5, 2]]);

    assert_eq!(overflows, vec![
        OrderedOverflowBuffer { global_index: 0, global_offset: 0, buffer: vec![0, 0, 1] },
        OrderedOverflowBuffer { global_index: 1, global_offset: 3, buffer: vec![3, 0, 2] },
    ]);

    // The entry of 1 keeps its first occurrence as the end of its chain.
    let partitioner = LocalTablePartitioner::new(4);
    let one = tables[partitioner.get_local_table_partition(1)].find(partitioner.get_transformed_hash(1)).unwrap();
    assert_eq!(one.global_index, 4);
    assert_eq!(one.end_of_chain, 1);
}

#[test]
fn local_overflow_buffers_land_after_their_offsets() {
    let mut shared = vec![9usize; 7];
    write_local_overflow_buffers_to_global_buffer(
        vec![
            OrderedOverflowBuffer { global_index: 0, global_offset: 0, buffer: vec![0, 0, 1] },
            OrderedOverflowBuffer { global_index: 1, global_offset: 3, buffer: vec![3, 0, 2] },
        ],
        &mut shared,
    );
    assert_eq!(shared, vec![9, 0, 0, 1, 3, 0, 2]);
}

#[test]
fn merging_partitions_links_duplicates_across_threads() {
    let mut tracker = Offset { index: 0, size: 0 };
    let (tables_a, overflow_a) = accumulate_locally_with(&mut tracker, 4, vec![vec![1, 2, 1]]);
    let (tables_b, overflow_b) = accumulate_locally_with(&mut tracker, 4, vec![vec![1, 5, 2]]);

    let mut shared_overflow = vec![0usize; tracker.size + 1];
    write_local_overflow_buffers_to_global_buffer(overflow_a, &mut shared_overflow);
    write_local_overflow_buffers_to_global_buffer(overflow_b, &mut shared_overflow);
    assert_eq!(shared_overflow, vec![0, 0, 0, 1, 0, 0, 0]);

    let mut counts = vec![0usize; 8];
    let merged = merge_owned_partitions_and_update_counts(
        1,
        0,
        4,
        vec![Arc::new(tables_a), Arc::new(tables_b)],
        &mut shared_overflow,
        &mut counts,
    );
    assert_eq!(merged.len(), 4);

    // The later occurrences point back through both threads' values.
    assert_eq!(shared_overflow, vec![0, 0, 0, 1, 3, 0, 2]);
    // One count for each distinct hash, in the partition of its hash among eight.
    assert_eq!(counts, vec![0, 0, 1, 0, 1, 1, 0, 0]);

    let partitioner = LocalTablePartitioner::new(4);
    let one = merged[partitioner.get_local_table_partition(1)].find(partitioner.get_transformed_hash(1)).unwrap();
    assert_eq!((one.hash, one.global_index, one.end_of_chain), (1, 4, 1));
    let two = merged[partitioner.get_local_table_partition(2)].find(partitioner.get_transformed_hash(2)).unwrap();
    assert_eq!((two.global_index, two.end_of_chain), (6, 2));
    let five = merged[partitioner.get_local_table_partition(5)].find(partitioner.get_transformed_hash(5)).unwrap();
    assert_eq!((five.global_index, five.end_of_chain), (5, 5));
}

#[test]
fn following_the_merged_chain_lists_every_occurrence() {
    let mut tracker = Offset { index: 0, size: 0 };
    let (tables_a, overflow_a) = accumulate_locally_with(&mut tracker, 4, vec![vec![1, 2, 1], vec![1, 8, 9]]);
    let (tables_b, overflow_b) = accumulate_locally_with(&mut tracker, 4, vec![vec![4, 1, 6], vec![10, 1, 12]]);

    let mut shared_overflow = vec![0usize; tracker.size + 1];
    write_local_overflow_buffers_to_global_buffer(overflow_a, &mut shared_overflow);
    write_local_overflow_buffers_to_global_buffer(overflow_b, &mut shared_overflow);

    let mut counts = vec![0usize; 8];
    let merged = merge_owned_partitions_and_update_counts(
        1,
        0,
        4,
        vec![Arc::new(tables_a), Arc::new(tables_b)],
        &mut shared_overflow,
        &mut counts,
    );

    let partitioner = LocalTablePartitioner::new(4);
    let one = merged[partitioner.get_local_table_partition(1)].find(partitioner.get_transformed_hash(1)).unwrap();
    // The value indices of every 1, of both workers, the later worker first.
    assert_eq!(follow_overflow_chain(&shared_overflow, one.global_index), Some(vec![10, 7, 3, 2, 0]));
    let eight = merged[partitioner.get_local_table_partition(8)].find(partitioner.get_transformed_hash(8)).unwrap();
    assert_eq!(follow_overflow_chain(&shared_overflow, eight.global_index), Some(vec![4]));
}
