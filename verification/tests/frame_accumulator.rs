use audio_fx::frame_accumulator::FrameAccumulator;
use audio_fx::frame_ring::FrameSizeError;

#[test]
fn new_accumulator_ratio() {
    let acc = FrameAccumulator::new(2, 6, 0.0f32);
    assert_eq!(acc.original_frame_size(), 2);
    assert_eq!(acc.target_frame_size(), 6);
    assert_eq!(acc.frame_ratio(), 3);
    assert!(acc.sizes_divide_evenly());
    assert_eq!(acc.input_frame(), &[0.0f32; 6][..]);
    assert_eq!(acc.output_frame(), &[0.0f32; 6][..]);
}

#[test]
fn uneven_sizes_round_down() {
    let acc = FrameAccumulator::new(4, 10, 0u8);
    assert_eq!(acc.frame_ratio(), 2);
    assert!(!acc.sizes_divide_evenly());
}

#[test]
fn frames_fill_slots_in_order() {
    let mut acc = FrameAccumulator::new(2, 6, 0i32);
    assert_eq!(acc.accept_input(&[1, 2]), Ok(false));
    assert_eq!(acc.accept_input(&[3, 4]), Ok(false));
    assert_eq!(acc.accept_input(&[5, 6]), Ok(true));
    assert_eq!(acc.input_frame(), &[1, 2, 3, 4, 5, 6][..]);
    assert_eq!(acc.accept_input(&[7, 8]), Ok(false));
    assert_eq!(acc.input_frame(), &[7, 8, 3, 4, 5, 6][..]);
}

#[test]
fn leftover_samples_stay_untouched() {
    let mut acc = FrameAccumulator::new(2, 5, 9u8);
    assert_eq!(acc.accept_input(&[1, 2]), Ok(false));
    assert_eq!(acc.accept_input(&[3, 4]), Ok(true));
    assert_eq!(acc.input_frame(), &[1, 2, 3, 4, 9][..]);
}

#[test]
fn output_is_handed_out_by_slot() {
    let mut acc = FrameAccumulator::new(2, 4, 0i32);
    acc.replace_output_frame(vec![10, 11, 12, 13]).unwrap();
    let mut out = [0i32; 2];
    assert_eq!(acc.accept_input(&[1, 1]), Ok(false));
    acc.emit_output(&mut out).unwrap();
    assert_eq!(out, [12, 13]);
    assert_eq!(acc.accept_input(&[2, 2]), Ok(true));
    acc.emit_output(&mut out).unwrap();
    assert_eq!(out, [10, 11]);
}

#[test]
fn processing_round_trip() {
    let mut acc = FrameAccumulator::new(2, 4, 0.0f32);
    let mut out = [0.0f32; 2];
    let mut seen = Vec::new();
    for frame in [[1.0f32, 2.0], [3.0, 4.0], [5.0, 6.0], [7.0, 8.0]] {
        if acc.accept_input(&frame).unwrap() {
            let doubled: Vec<f32> = acc.input_frame().iter().map(|x| x * 2.0).collect();
            acc.replace_output_frame(doubled).unwrap();
        }
        acc.emit_output(&mut out).unwrap();
        seen.extend_from_slice(&out);
    }
    assert_eq!(seen, vec![0.0, 0.0, 2.0, 4.0, 6.0, 8.0, 10.0, 12.0]);
}

#[test]
fn wrong_sizes_are_refused() {
    let mut acc = FrameAccumulator::new(3, 6, 0u8);
    assert_eq!(acc.accept_input(&[1, 2]), Err(FrameSizeError { expected: 3, actual: 2 }));
    assert_eq!(acc.input_frame(), &[0u8; 6][..]);
    let mut out = [5u8; 4];
    assert_eq!(acc.emit_output(&mut out), Err(FrameSizeError { expected: 3, actual: 4 }));
    assert_eq!(out, [5u8; 4]);
    assert_eq!(acc.replace_output_frame(vec![1, 2]), Err(FrameSizeError { expected: 6, actual: 2 }));
    assert_eq!(acc.output_frame(), &[0u8; 6][..]);
}

#[test]
fn info_names_both_sizes() {
    let acc = FrameAccumulator::new(128, 1024, 0.0f32);
    assert_eq!(acc.get_info(), "FrameAccumulator: 128 -> 1024");
    let acc = FrameAccumulator::new(1, 0, 0.0f32);
    assert_eq!(acc.get_info(), "FrameAccumulator: 1 -> 0");
}

#[test]
fn ratio_one_completes_every_frame() {
    let mut acc = FrameAccumulator::new(3, 3, 0u16);
    for v in 0..4u16 {
        assert_eq!(acc.accept_input(&[v, v, v]), Ok(true));
        assert_eq!(acc.input_frame(), &[v, v, v][..]);
    }
}

#[test]
fn pass_through_delays_by_ratio_minus_one_frames() {
    let (o, r) = (2usize, 3usize);
    let mut acc = FrameAccumulator::new(o, o * r, 0i32);
    let mut calls_with_callback = Vec::new();
    for c in 0..20usize {
        let input = [c as i32, -(c as i32)];
        if acc.accept_input(&input).unwrap() {
            calls_with_callback.push(c);
            let frame = acc.input_frame().to_vec();
            let expected: Vec<i32> = (c + 1 - r..=c).flat_map(|j| [j as i32, -(j as i32)]).collect();
            assert_eq!(frame, expected);
            acc.replace_output_frame(frame).unwrap();
        }
        let mut out = [7i32; 2];
        acc.emit_output(&mut out).unwrap();
        if c + 1 >= r {
            let j = (c + 1 - r) as i32;
            assert_eq!(out, [j, -j]);
        } else {
            assert_eq!(out, [0, 0]);
        }
    }
    assert_eq!(calls_with_callback, vec![2, 5, 8, 11, 14, 17]);
}
