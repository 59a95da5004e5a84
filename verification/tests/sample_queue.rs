use distortion_pedal::sample_queue::{
    capture_first_channel, frames_in, spread_to_channels, take_for_playback, SampleRing, RING_CAPACITY,
};

#[test]
fn new_ring_is_empty() {
    let ring = SampleRing::with_capacity(4).unwrap();
    assert_eq!(ring.len(), 0);
}

#[test]
fn capture_takes_first_channel_of_each_frame() {
    let mut ring = SampleRing::with_capacity(8).unwrap();
    // Three stereo frames: (1, 10), (2, 20), (3, 30).
    let pushed = capture_first_channel(&mut ring, &[1, 10, 2, 20, 3, 30], 2);
    assert_eq!(pushed, 3);
    assert_eq!(ring.len(), 3);
    assert_eq!(take_for_playback(&mut ring, 3), vec![1, 2, 3]);
}

#[test]
fn capture_short_last_frame_still_counts() {
    let mut ring = SampleRing::with_capacity(8).unwrap();
    // Frames of three channels: (5, 6, 7), (8, 9) — the last one is short.
    let pushed = capture_first_channel(&mut ring, &[5, 6, 7, 8, 9], 3);
    assert_eq!(pushed, 2);
    assert_eq!(take_for_playback(&mut ring, 2), vec![5, 8]);
}

#[test]
fn capture_mono_takes_every_sample() {
    let mut ring = SampleRing::with_capacity(8).unwrap();
    assert_eq!(capture_first_channel(&mut ring, &[4, 5, 6], 1), 3);
    assert_eq!(take_for_playback(&mut ring, 3), vec![4, 5, 6]);
}

#[test]
fn capture_empty_block_pushes_nothing() {
    let mut ring = SampleRing::with_capacity(2).unwrap();
    assert_eq!(capture_first_channel(&mut ring, &[], 2), 0);
    assert_eq!(ring.len(), 0);
}

#[test]
fn full_ring_drops_the_rest_of_the_block() {
    let mut ring = SampleRing::with_capacity(2).unwrap();
    let pushed = capture_first_channel(&mut ring, &[1, 2, 3, 4], 1);
    assert_eq!(pushed, 2);
    assert_eq!(ring.len(), 2);
    // A further block finds the ring full and is dropped entirely.
    assert_eq!(capture_first_channel(&mut ring, &[9, 9], 1), 0);
    assert_eq!(take_for_playback(&mut ring, 2), vec![1, 2]);
}

#[test]
fn underrun_plays_silence() {
    let mut ring = SampleRing::with_capacity(4).unwrap();
    capture_first_channel(&mut ring, &[7], 1);
    assert_eq!(take_for_playback(&mut ring, 3), vec![7, 0, 0]);
    assert_eq!(ring.len(), 0);
    assert_eq!(take_for_playback(&mut ring, 2), vec![0, 0]);
}

#[test]
fn playback_leaves_the_rest_queued_in_order() {
    let mut ring = SampleRing::with_capacity(8).unwrap();
    capture_first_channel(&mut ring, &[1, 2, 3, 4, 5], 1);
    assert_eq!(take_for_playback(&mut ring, 2), vec![1, 2]);
    assert_eq!(ring.len(), 3);
    capture_first_channel(&mut ring, &[6], 1);
    assert_eq!(take_for_playback(&mut ring, 4), vec![3, 4, 5, 6]);
}

#[test]
fn sample_bits_round_trip_through_the_ring() {
    let mut ring = SampleRing::with_capacity(4).unwrap();
    let samples = [0.25f32, -0.5f32, 1.0e-3f32];
    let bits: Vec<u32> = samples.iter().map(|s| s.to_bits()).collect();
    capture_first_channel(&mut ring, &bits, 1);
    let back: Vec<f32> = take_for_playback(&mut ring, 4).into_iter().map(f32::from_bits).collect();
    assert_eq!(back, vec![0.25, -0.5, 1.0e-3, 0.0]);
}

#[test]
fn frames_in_rounds_up() {
    assert_eq!(frames_in(0, 2), 0);
    assert_eq!(frames_in(512, 2), 256);
    assert_eq!(frames_in(5, 2), 3);
    assert_eq!(frames_in(1, 4), 1);
    assert_eq!(frames_in(7, 1), 7);
}

#[test]
fn spread_writes_each_frame_to_every_channel() {
    assert_eq!(spread_to_channels(&vec![1, 2, 3], 2, 6), vec![1, 1, 2, 2, 3, 3]);
    assert_eq!(spread_to_channels(&vec![8, 9], 3, 5), vec![8, 8, 8, 9, 9]);
    assert_eq!(spread_to_channels(&vec![4, 5], 1, 2), vec![4, 5]);
    assert_eq!(spread_to_channels(&vec![], 2, 0), Vec::<u32>::new());
}

#[test]
fn ring_capacity_must_be_positive_and_fit() {
    assert!(SampleRing::with_capacity(0).is_none());
    assert!(SampleRing::with_capacity(usize::MAX).is_none());
    let ring = SampleRing::with_capacity(RING_CAPACITY).unwrap();
    assert_eq!(ring.len(), 0);
}

#[test]
fn default_ring_holds_4096_samples() {
    assert_eq!(RING_CAPACITY, 4096);
    let mut ring = SampleRing::with_capacity(RING_CAPACITY).unwrap();
    let block: Vec<u32> = (0..5000u32).collect();
    assert_eq!(capture_first_channel(&mut ring, &block, 1), 4096);
    assert_eq!(ring.len(), 4096);
    let out = take_for_playback(&mut ring, 4097);
    assert_eq!(out[0], 0);
    assert_eq!(out[4095], 4095);
    assert_eq!(out[4096], 0);
    assert_eq!(ring.len(), 0);
}
