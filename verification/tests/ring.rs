use rustchord::ring::ringbuffer;

#[test]
fn ring_starts_filled_and_at_zero() {
    let ring = ringbuffer::new(4, 0i32);
    assert_eq!(ring.capacity(), 4);
    assert_eq!(ring.read_linearized(), vec![0, 0, 0, 0]);
}

#[test]
fn ring_keeps_the_latest_window() {
    let mut ring = ringbuffer::new(4, 0i32);
    ring.write(&[1, 2, 3]);
    assert_eq!(ring.read_linearized(), vec![0, 1, 2, 3]);
    ring.write(&[4, 5, 6]);
    assert_eq!(ring.read_linearized(), vec![3, 4, 5, 6]);
}

#[test]
fn ring_after_a_full_window_of_writes_holds_only_what_was_written() {
    let mut ring = ringbuffer::new(5, -1i32);
    let blocks: [&[i32]; 4] = [&[1], &[2, 3, 4], &[], &[5, 6, 7, 8]];
    let mut all: Vec<i32> = Vec::new();
    for block in blocks.iter() {
        ring.write(block);
        all.extend_from_slice(block);
    }
    assert_eq!(ring.read_linearized(), all[all.len() - 5..].to_vec());
    assert_eq!(ring.read_linearized(), vec![4, 5, 6, 7, 8]);
}

#[test]
fn ring_block_that_straddles_the_end_is_copied_in_two_parts() {
    let mut ring = ringbuffer::new(4, 0u8);
    ring.write(&[1, 2, 3]);
    ring.write(&[4, 5]);
    assert_eq!(ring.read_linearized(), vec![2, 3, 4, 5]);
    ring.write(&[6]);
    assert_eq!(ring.read_linearized(), vec![3, 4, 5, 6]);
}

#[test]
fn ring_long_block_counts_as_its_last_window() {
    let long: Vec<i32> = (1..=11).collect();
    let mut a = ringbuffer::new(4, 0i32);
    let mut b = ringbuffer::new(4, 0i32);
    a.write(&[100, 101]);
    b.write(&[100, 101]);
    a.write(&long);
    b.write(&long[long.len() - 4..]);
    assert_eq!(a.read_linearized(), vec![8, 9, 10, 11]);
    assert_eq!(a.read_linearized(), b.read_linearized());
    a.write(&[12]);
    b.write(&[12]);
    assert_eq!(a.read_linearized(), vec![9, 10, 11, 12]);
    assert_eq!(a.read_linearized(), b.read_linearized());
}

#[test]
fn ring_block_of_exactly_one_window_replaces_everything() {
    let mut ring = ringbuffer::new(3, 0i32);
    ring.write(&[9]);
    ring.write(&[1, 2, 3]);
    assert_eq!(ring.read_linearized(), vec![1, 2, 3]);
}

#[test]
fn ring_empty_block_changes_nothing() {
    let mut ring = ringbuffer::new(3, 7i32);
    ring.write(&[1]);
    ring.write(&[]);
    assert_eq!(ring.read_linearized(), vec![7, 7, 1]);
}

#[test]
fn ring_of_one_sample_holds_the_last_sample() {
    let mut ring = ringbuffer::new(1, 0i32);
    ring.write(&[1, 2, 3]);
    assert_eq!(ring.read_linearized(), vec![3]);
    ring.write(&[4]);
    assert_eq!(ring.read_linearized(), vec![4]);
}

#[test]
fn ring_callback_hands_back_the_window() {
    let mut ring = ringbuffer::new(4, 0.0f32);
    let first = ring.audio_callback(&[0.5, -0.5]);
    assert_eq!(first, vec![0.0, 0.0, 0.5, -0.5]);
    let second = ring.audio_callback(&[1.0, 2.0, 3.0]);
    assert_eq!(second, vec![-0.5, 1.0, 2.0, 3.0]);
    assert_eq!(ring.read_linearized(), second);
}
