use audio_fx::frame_ring::{circular_offset, FrameRing, FrameSizeError};

#[test]
fn new_ring_is_filled() {
    let ring = FrameRing::new(3, 2, 1, 0.0f32);
    assert_eq!(ring.samples(), &[0.0f32; 6][..]);
    assert_eq!(ring.frame_len(), 3);
    assert_eq!(ring.frame_count(), 2);
}

#[test]
fn write_goes_to_start_frame() {
    let mut ring = FrameRing::new(2, 2, 1, 0.0f32);
    assert_eq!(ring.write_frame(&[1.0, 2.0]), Ok(()));
    assert_eq!(ring.samples(), &[0.0, 0.0, 1.0, 2.0][..]);
    assert_eq!(ring.write_frame(&[3.0, 4.0]), Ok(()));
    assert_eq!(ring.samples(), &[3.0, 4.0, 1.0, 2.0][..]);
}

#[test]
fn read_returns_what_was_written() {
    let mut ring = FrameRing::new(3, 4, 0, 0i32);
    for k in 0..4 {
        let frame = [k, k + 10, k + 20];
        ring.write_frame(&frame).unwrap();
        let mut out = [0i32; 3];
        ring.read_frame(&mut out).unwrap();
        assert_eq!(out, frame);
    }
}

#[test]
fn write_keeps_other_frames() {
    let mut ring = FrameRing::new(2, 3, 0, 0u8);
    ring.write_frame(&[1, 1]).unwrap();
    ring.write_frame(&[2, 2]).unwrap();
    ring.write_frame(&[3, 3]).unwrap();
    ring.write_frame(&[4, 4]).unwrap();
    assert_eq!(ring.samples(), &[4, 4, 2, 2, 3, 3][..]);
}

#[test]
fn indices_cycle_after_frame_count_steps() {
    let mut ring = FrameRing::new(1, 3, 2, 0u8);
    for v in 1..=3u8 {
        ring.write_frame(&[v]).unwrap();
    }
    assert_eq!(ring.samples(), &[2, 3, 1][..]);
    let mut out = [0u8];
    ring.read_frame(&mut out).unwrap();
    assert_eq!(out, [1]);
}

#[test]
fn wrong_input_length_is_refused() {
    let mut ring = FrameRing::new(4, 2, 0, 0.5f32);
    assert_eq!(ring.write_frame(&[1.0; 3]), Err(FrameSizeError { expected: 4, actual: 3 }));
    assert_eq!(ring.samples(), &[0.5f32; 8][..]);
}

#[test]
fn wrong_output_length_is_refused() {
    let mut ring = FrameRing::new(4, 2, 0, 0.5f32);
    let mut out = [9.0f32; 5];
    assert_eq!(ring.read_frame(&mut out), Err(FrameSizeError { expected: 4, actual: 5 }));
    assert_eq!(out, [9.0f32; 5]);
}

#[test]
fn set_sample_changes_one_sample() {
    let mut ring = FrameRing::new(2, 2, 0, 0i64);
    ring.set_sample(3, 7);
    assert_eq!(ring.samples(), &[0, 0, 0, 7][..]);
}

#[test]
fn empty_frames_are_fine() {
    let mut ring = FrameRing::new(0, 2, 0, 0u8);
    assert_eq!(ring.write_frame(&[]), Ok(()));
    let mut out: [u8; 0] = [];
    assert_eq!(ring.read_frame(&mut out), Ok(()));
}

#[test]
fn circular_offset_looks_back() {
    assert_eq!(circular_offset(5, 1, 8), 4);
    assert_eq!(circular_offset(0, 1, 8), 7);
    assert_eq!(circular_offset(1, 2, 8), 7);
    assert_eq!(circular_offset(3, 0, 8), 3);
    assert_eq!(circular_offset(3, 8, 8), 3);
    for len in 1..10usize {
        for index in 0..len {
            for back in 0..=len {
                assert_eq!(circular_offset(index, back, len), (len + index - back) % len);
            }
        }
    }
}

#[test]
fn frames_come_out_in_the_order_they_went_in() {
    for count in 1..5usize {
        for start in 0..count {
            for k in 0..=count {
                let mut ring = FrameRing::new(2, count, start, 0i32);
                for j in 0..k {
                    ring.write_frame(&[j as i32, 100 + j as i32]).unwrap();
                }
                for j in 0..k {
                    let mut out = [0i32; 2];
                    ring.read_frame(&mut out).unwrap();
                    assert_eq!(out, [j as i32, 100 + j as i32]);
                }
            }
        }
    }
}
