use distortion_pedal::frame_buffer::{FrameBuffer, FFT_SIZE};

#[test]
fn new_frame_is_filled_at_position_zero() {
    let fb = FrameBuffer::new(4, 0.0f32);
    assert_eq!(fb.size(), 4);
    assert_eq!(fb.position(), 0);
    assert_eq!(fb.samples(), &vec![0.0f32; 4]);
}

#[test]
fn frame_completes_on_the_last_slot() {
    let mut fb = FrameBuffer::new(3, 0u32);
    assert!(!fb.push(1));
    assert_eq!(fb.position(), 1);
    assert!(!fb.push(2));
    assert_eq!(fb.position(), 2);
    assert!(fb.push(3));
    assert_eq!(fb.position(), 0);
    assert_eq!(fb.samples(), &vec![1, 2, 3]);
}

#[test]
fn next_frame_overwrites_from_the_start() {
    let mut fb = FrameBuffer::new(3, 0u32);
    for x in [1, 2, 3] {
        fb.push(x);
    }
    assert!(!fb.push(4));
    assert_eq!(fb.samples(), &vec![4, 2, 3]);
    assert_eq!(fb.position(), 1);
}

#[test]
fn one_frame_per_size_samples() {
    let mut fb = FrameBuffer::new(4, 0i32);
    let mut completed = 0;
    for x in 0..12 {
        if fb.push(x) {
            completed += 1;
        }
    }
    assert_eq!(completed, 3);
    assert_eq!(fb.samples(), &vec![8, 9, 10, 11]);
}

#[test]
fn single_slot_frame_completes_every_sample() {
    let mut fb = FrameBuffer::new(1, 0u8);
    assert!(fb.push(5));
    assert!(fb.push(6));
    assert_eq!(fb.samples(), &vec![6]);
    assert_eq!(fb.position(), 0);
}

#[test]
fn analysis_frame_is_2048_samples() {
    assert_eq!(FFT_SIZE, 2048);
    let mut fb = FrameBuffer::new(FFT_SIZE, 0.0f32);
    let mut completions = 0;
    for i in 0..FFT_SIZE {
        if fb.push(i as f32) {
            completions += 1;
        }
    }
    assert_eq!(completions, 1);
    assert_eq!(fb.samples()[2047], 2047.0);
}
