use hashjoin::mutex_map::MutexMapState;

#[test]
fn a_fresh_state_answers_nothing() {
    let state = MutexMapState::new();
    assert_eq!(state.get(5), Vec::<usize>::new());
    assert_eq!(state.latest(5), None);
}

#[test]
fn allocating_a_batch_returns_the_buffer_length() {
    let mut state = MutexMapState::new();
    assert_eq!(state.allocate_batch(3), 1);
    assert_eq!(state.allocate_batch(2), 4);
    assert_eq!(state.allocate_batch(0), 6);
}

#[test]
fn lookups_list_every_value_of_a_hash_latest_first() {
    let mut state = MutexMapState::new();
    let offset = state.allocate_batch(4);
    for (index, hash) in [5u64, 7, 5, 5].into_iter().enumerate() {
        state.insert(hash, offset + index);
    }
    assert_eq!(state.get(5), vec![3, 2, 0]);
    assert_eq!(state.get(7), vec![1]);
    assert_eq!(state.get(9), Vec::<usize>::new());
    assert_eq!(state.latest(5), Some(4));
}

#[test]
fn chains_follow_the_order_of_insertion_across_batches() {
    let mut state = MutexMapState::new();
    let first = state.allocate_batch(2);
    let second = state.allocate_batch(2);
    state.insert(5, second);
    state.insert(5, first);
    state.insert(8, first + 1);
    state.insert(5, second + 1);
    assert_eq!(state.get(5), vec![3, 0, 2]);
    assert_eq!(state.get(8), vec![1]);
}
