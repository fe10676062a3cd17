use hashjoin::concurrent_build::LocalTablePartitioner;
use hashjoin::destination::{actually_write_hashes_to_map, write_to_destination_table};
use hashjoin::global_index_tracker::Offset;
use hashjoin::local_tables::{
    locally_accumulate_input, merge_owned_partitions_and_update_counts, new_local_tables,
    write_local_overflow_buffers_to_global_buffer, LocalTable, OrderedOverflowBuffer,
};
use std::sync::Arc;

fn accumulate(tracker: &mut Offset, table_count: usize, inputs: Vec<Vec<u64>>) -> (Vec<LocalTable>, Vec<OrderedOverflowBuffer>) {
    let partitioner = LocalTablePartitioner::new(table_count);
    let mut tables = new_local_tables(table_count);
    let mut overflows = vec![];
    for input in inputs {
        let global_offset = tracker.allocate(input.len());
        let mut overflow = vec![0usize; input.len()];
        locally_accumulate_input(global_offset, input, &partitioner, &mut tables, &mut overflow);
        overflows.push(OrderedOverflowBuffer {
            global_offset: global_offset.size,
            global_index: global_offset.index,
            buffer: overflow,
        });
    }
    (tables, overflows)
}

#[test]
fn writes_take_the_first_free_slot_of_the_probe() {
    let mask = 15;
    let mut occupied = vec![false; 16];
    let mut destination = vec![None; 16];

    actually_write_hashes_to_map(mask, 5, 100, &mut occupied, &mut destination);
    assert_eq!(destination[5], Some((5, 100)));

    // The same start moves on along the group.
    actually_write_hashes_to_map(mask, 5, 101, &mut occupied, &mut destination);
    assert_eq!(destination[6], Some((5, 101)));
    actually_write_hashes_to_map(mask, 21, 102, &mut occupied, &mut destination);
    assert_eq!(destination[7], Some((21, 102)));

    // A group wraps around the end of the table.
    actually_write_hashes_to_map(mask, 15, 103, &mut occupied, &mut destination);
    assert_eq!(destination[15], Some((15, 103)));
    actually_write_hashes_to_map(mask, 15, 104, &mut occupied, &mut destination);
    assert_eq!(destination[0], Some((15, 104)));

    let taken: Vec<usize> = (0..16).filter(|i| occupied[*i]).collect();
    assert_eq!(taken, vec![0, 5, 6, 7, 15]);
}

#[test]
fn a_full_group_sends_the_probe_one_group_further() {
    let mask = 31;
    let mut occupied = vec![false; 32];
    for i in 3..11 {
        occupied[i] = true;
    }
    let mut destination = vec![None; 32];
    actually_write_hashes_to_map(mask, 3, 7, &mut occupied, &mut destination);
    // The first group is slots 3 to 10; the probe moves on by eight.
    assert_eq!(destination[11], Some((3, 7)));
}

#[test]
fn one_worker_writes_every_distinct_hash_once() {
    let mut tracker = Offset { index: 0, size: 0 };
    let (tables_a, overflow_a) = accumulate(&mut tracker, 4, vec![vec![1, 2, 1, 9, 17]]);
    let (tables_b, overflow_b) = accumulate(&mut tracker, 4, vec![vec![1, 5, 2, 33]]);
    let mut overflow = vec![0usize; tracker.size + 1];
    write_local_overflow_buffers_to_global_buffer(overflow_a, &mut overflow);
    write_local_overflow_buffers_to_global_buffer(overflow_b, &mut overflow);

    let mut counts = vec![0usize; 16];
    let merged = merge_owned_partitions_and_update_counts(
        1,
        0,
        4,
        vec![Arc::new(tables_a), Arc::new(tables_b)],
        &mut overflow,
        &mut counts,
    );
    assert_eq!(counts.iter().sum::<usize>(), 6);

    let mut destination = vec![None; 16];
    write_to_destination_table(1, 0, 4, &counts, &merged, &mut destination);

    let mut written: Vec<(u64, usize)> = destination.iter().flatten().copied().collect();
    written.sort();
    // The latest insertion index of each distinct hash.
    assert_eq!(written, vec![(1, 6), (2, 8), (5, 7), (9, 4), (17, 5), (33, 9)]);
}

#[test]
fn two_workers_write_disjoint_slots() {
    let mut tracker = Offset { index: 0, size: 0 };
    let (tables_a, overflow_a) = accumulate(&mut tracker, 4, vec![vec![1, 2, 1, 9, 17]]);
    let (tables_b, overflow_b) = accumulate(&mut tracker, 4, vec![vec![1, 5, 2, 33]]);
    let mut overflow = vec![0usize; tracker.size + 1];
    write_local_overflow_buffers_to_global_buffer(overflow_a, &mut overflow);
    write_local_overflow_buffers_to_global_buffer(overflow_b, &mut overflow);
    let all = vec![Arc::new(tables_a), Arc::new(tables_b)];

    let mut counts = vec![0usize; 16];
    let mut overflow_0 = overflow.clone();
    let merged_0 = merge_owned_partitions_and_update_counts(2, 0, 4, all.clone(), &mut overflow_0, &mut counts);
    let mut overflow_1 = overflow.clone();
    let merged_1 = merge_owned_partitions_and_update_counts(2, 1, 4, all.clone(), &mut overflow_1, &mut counts);
    assert_eq!(counts.iter().sum::<usize>(), 6);

    let mut destination_0 = vec![None; 16];
    write_to_destination_table(2, 0, 4, &counts, &merged_0, &mut destination_0);
    let mut destination_1 = vec![None; 16];
    write_to_destination_table(2, 1, 4, &counts, &merged_1, &mut destination_1);

    let mut written = vec![];
    for slot in 0..16 {
        assert!(destination_0[slot].is_none() || destination_1[slot].is_none());
        if let Some(entry) = destination_0[slot].or(destination_1[slot]) {
            written.push(entry);
        }
    }
    written.sort();
    assert_eq!(written, vec![(1, 6), (2, 8), (5, 7), (9, 4), (17, 5), (33, 9)]);
}
