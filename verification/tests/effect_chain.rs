use audio_fx::effect_chain::{run_chain, Effect};

/// Adds a constant to every sample.
struct Offset(i32);

impl Effect<i32> for Offset {
    fn operate(&mut self, input: &[i32], output: &mut [i32]) {
        for (o, i) in output.iter_mut().zip(input) {
            *o = i + self.0;
        }
    }
}

/// Outputs the previous sample (one-sample delay across calls).
struct Delay {
    last: i32,
}

impl Effect<i32> for Delay {
    fn operate(&mut self, input: &[i32], output: &mut [i32]) {
        for (o, i) in output.iter_mut().zip(input) {
            *o = self.last;
            self.last = *i;
        }
    }
}

#[test]
fn empty_chain_copies_input() {
    let mut effects: Vec<Offset> = Vec::new();
    let mut scratch = Vec::new();
    let mut output = [0i32; 3];
    run_chain(&mut effects, &[1, 2, 3], &mut scratch, &mut output);
    assert_eq!(output, [1, 2, 3]);
    assert!(scratch.is_empty());
}

#[test]
fn empty_chain_ignores_a_longer_scratch() {
    let mut effects: Vec<Offset> = Vec::new();
    let mut scratch = vec![9, 9, 9, 9, 9];
    let mut output = [0i32; 2];
    run_chain(&mut effects, &[4, 5], &mut scratch, &mut output);
    assert_eq!(output, [4, 5]);
    assert_eq!(scratch, vec![9, 9, 9, 9, 9]);
}

#[test]
fn odd_chain_leaves_last_stage_input_in_scratch() {
    let mut effects = vec![Offset(1), Offset(10), Offset(100)];
    let mut scratch = Vec::new();
    let mut output = [0i32; 2];
    run_chain(&mut effects, &[0, 5], &mut scratch, &mut output);
    assert_eq!(output, [111, 116]);
    assert_eq!(scratch, vec![11, 16]);
}

#[test]
fn chain_applies_every_stage_in_order() {
    for n in 1..6 {
        let mut effects: Vec<Offset> = (1..=n).map(Offset).collect();
        let mut scratch = Vec::new();
        let mut output = [0i32; 4];
        run_chain(&mut effects, &[10, 20, 30, 40], &mut scratch, &mut output);
        let added: i32 = (1..=n).sum();
        assert_eq!(output, [10 + added, 20 + added, 30 + added, 40 + added]);
        assert_eq!(effects.len(), n as usize);
        if n % 2 == 0 {
            assert_eq!(scratch, output.to_vec());
        }
    }
}

#[test]
fn stage_states_carry_over() {
    let mut effects = vec![Delay { last: 0 }, Delay { last: 100 }];
    let mut scratch = vec![7];
    let mut output = [0i32; 2];
    run_chain(&mut effects, &[1, 2], &mut scratch, &mut output);
    assert_eq!(output, [100, 0]);
    assert_eq!(effects[0].last, 2);
    assert_eq!(effects[1].last, 1);
    run_chain(&mut effects, &[3, 4], &mut scratch, &mut output);
    assert_eq!(output, [1, 2]);
}
