use prime_factor::{finish, Finish, Pass, Stages, Twiddle};
use std::f64::consts::PI;

type Sample = (f64, f64);

fn add(left: Sample, right: Sample) -> Sample {
    (left.0 + right.0, left.1 + right.1)
}

fn times(left: Sample, right: Sample) -> Sample {
    (left.0 * right.0 - left.1 * right.1, left.0 * right.1 + left.1 * right.0)
}

fn scaled(value: Sample, factor: f64) -> Sample {
    (value.0 * factor, value.1 * factor)
}

fn root_of_unity(index: usize, modulus: usize, forward: bool) -> Sample {
    let angle = 2.0 * PI * (index % modulus) as f64 / modulus as f64;
    if forward {
        (angle.cos(), -angle.sin())
    } else {
        (angle.cos(), angle.sin())
    }
}

fn value_of(coefficient: Twiddle) -> Sample {
    match coefficient {
        Twiddle::One => (1.0, 0.0),
        Twiddle::Root { index, modulus, forward } => root_of_unity(index, modulus, forward),
    }
}

fn run_pass(
    step: &Pass,
    source: &[Sample],
    target: &mut [Sample],
    table: &[Sample],
    forward: bool,
) {
    for group in 0..step.groups() {
        for lane in 0..step.stride {
            for branch in 0..step.radix {
                let mut sum = (0.0, 0.0);
                for input in 0..step.radix {
                    let sample = source[step.source_index(group, lane, input)];
                    let turn = root_of_unity(input * branch, step.radix, forward);
                    sum = add(sum, times(sample, turn));
                }
                let place = step.target_index(group, lane, branch);
                target[place] = times(sum, table[step.twiddle_index(group, branch)]);
            }
        }
    }
}

fn transform_with(plan: &Stages, lanes: usize, buffer: &mut [Sample], forward: bool) {
    let length = plan.size();
    assert_eq!(buffer.len(), length);
    let table: Vec<Sample> = plan.twiddles(forward).iter().map(|&entry| value_of(entry)).collect();
    let mut scratch = vec![(0.0, 0.0); length];
    let passes = plan.schedule(lanes);
    for step in &passes {
        assert!(step.admits(length, table.len()));
        if step.from_scratch {
            run_pass(step, &scratch, buffer, &table, forward);
        } else {
            run_pass(step, buffer, &mut scratch, &table, forward);
        }
    }
    match finish(passes.len(), forward) {
        Finish::Nothing => {}
        Finish::Copy => buffer.copy_from_slice(&scratch),
        Finish::Scale => {
            for sample in buffer.iter_mut() {
                *sample = scaled(*sample, 1.0 / length as f64);
            }
        }
        Finish::ScaleCopy => {
            for (sample, result) in buffer.iter_mut().zip(scratch.iter()) {
                *sample = scaled(*result, 1.0 / length as f64);
            }
        }
    }
}

fn transform(buffer: &mut [Sample], forward: bool) {
    let plan = Stages::new(buffer.len()).unwrap();
    transform_with(&plan, 4, buffer, forward);
}

fn direct(input: &[Sample], forward: bool) -> Vec<Sample> {
    let length = input.len();
    (0..length)
        .map(|frequency| {
            let mut sum = (0.0, 0.0);
            for (time, &sample) in input.iter().enumerate() {
                sum = add(sum, times(sample, root_of_unity(time * frequency, length, forward)));
            }
            sum
        })
        .collect()
}

fn signal(length: usize, seed: u64) -> Vec<Sample> {
    let mut state = seed.wrapping_mul(6364136223846793005).wrapping_add(1442695040888963407);
    let mut next = move || {
        state = state.wrapping_mul(6364136223846793005).wrapping_add(1442695040888963407);
        ((state >> 11) as f64 / (1u64 << 53) as f64) * 2.0 - 1.0
    };
    (0..length).map(|_| (next(), next())).collect()
}

fn assert_close(found: &[Sample], expected: &[Sample], tolerance: f64) {
    assert_eq!(found.len(), expected.len());
    for (place, (one, other)) in found.iter().zip(expected.iter()).enumerate() {
        assert!(
            (one.0 - other.0).abs() <= tolerance && (one.1 - other.1).abs() <= tolerance,
            "place {}: found {:?}, expected {:?}",
            place,
            one,
            other
        );
    }
}

fn tolerance(length: usize) -> f64 {
    1e-13 * length as f64 * (length as f64).log2().max(1.0) + 1e-13
}

const LENGTHS: [usize; 24] = [
    1, 2, 3, 4, 6, 8, 9, 12, 16, 18, 24, 27, 32, 36, 48, 54, 64, 72, 81, 96, 108, 128, 144, 192,
];

#[test]
fn forward_of_two_ones() {
    let mut buffer = vec![(1.0, 0.0), (1.0, 0.0)];
    transform(&mut buffer, true);
    assert_close(&buffer, &[(2.0, 0.0), (0.0, 0.0)], 1e-15);
}

#[test]
fn forward_of_three_ones() {
    let mut buffer = vec![(1.0, 0.0); 3];
    transform(&mut buffer, true);
    assert_close(&buffer, &[(3.0, 0.0), (0.0, 0.0), (0.0, 0.0)], 1e-15);
}

#[test]
fn impulse_of_twelve_samples() {
    let mut buffer = vec![(0.0, 0.0); 12];
    buffer[0] = (1.0, 0.0);
    let impulse = buffer.clone();
    transform(&mut buffer, true);
    assert_close(&buffer, &[(1.0, 0.0); 12], 1e-15);
    transform(&mut buffer, false);
    assert_close(&buffer, &impulse, 1e-15);
}

#[test]
fn single_sample_is_left_alone() {
    for forward in [true, false] {
        let mut buffer = vec![(0.75, -2.5)];
        transform(&mut buffer, forward);
        assert_eq!(buffer, vec![(0.75, -2.5)]);
    }
}

#[test]
fn forward_agrees_with_the_definition() {
    for length in LENGTHS {
        let input = signal(length, length as u64);
        let mut buffer = input.clone();
        transform(&mut buffer, true);
        assert_close(&buffer, &direct(&input, true), tolerance(length));
    }
}

#[test]
fn inverse_agrees_with_the_definition() {
    for length in LENGTHS {
        let input = signal(length, 77 + length as u64);
        let mut buffer = input.clone();
        transform(&mut buffer, false);
        let expected: Vec<Sample> = direct(&input, false)
            .into_iter()
            .map(|sample| scaled(sample, 1.0 / length as f64))
            .collect();
        assert_close(&buffer, &expected, tolerance(length));
    }
}

#[test]
fn forward_then_inverse_gives_the_input_back() {
    for length in LENGTHS.into_iter().chain([243, 256, 384, 512, 729, 1024, 1536]) {
        let input = signal(length, 1000 + length as u64);
        let mut buffer = input.clone();
        transform(&mut buffer, true);
        transform(&mut buffer, false);
        assert_close(&buffer, &input, tolerance(length));
    }
}

#[test]
fn inverse_then_forward_gives_the_input_back() {
    for length in LENGTHS {
        let input = signal(length, 2000 + length as u64);
        let mut buffer = input.clone();
        transform(&mut buffer, false);
        transform(&mut buffer, true);
        assert_close(&buffer, &input, tolerance(length));
    }
}

#[test]
fn forward_is_linear() {
    let first_factor = (0.5, -1.25);
    let second_factor = (-2.0, 0.75);
    for length in LENGTHS {
        let first = signal(length, 3000 + length as u64);
        let second = signal(length, 4000 + length as u64);
        let mut mixed: Vec<Sample> = first
            .iter()
            .zip(second.iter())
            .map(|(&one, &other)| add(times(first_factor, one), times(second_factor, other)))
            .collect();
        let mut first_result = first.clone();
        let mut second_result = second.clone();
        transform(&mut mixed, true);
        transform(&mut first_result, true);
        transform(&mut second_result, true);
        let expected: Vec<Sample> = first_result
            .iter()
            .zip(second_result.iter())
            .map(|(&one, &other)| add(times(first_factor, one), times(second_factor, other)))
            .collect();
        assert_close(&mixed, &expected, 10.0 * tolerance(length));
    }
}

#[test]
fn vector_width_does_not_change_the_result() {
    for length in LENGTHS {
        let plan = Stages::new(length).unwrap();
        for forward in [true, false] {
            let input = signal(length, 5000 + length as u64);
            let mut narrow = input.clone();
            let mut wide = input.clone();
            let mut mixed = input.clone();
            transform_with(&plan, usize::MAX, &mut narrow, forward);
            transform_with(&plan, 0, &mut wide, forward);
            transform_with(&plan, 4, &mut mixed, forward);
            assert_eq!(narrow, wide);
            assert_eq!(narrow, mixed);
        }
    }
}

#[test]
fn plan_serves_many_transforms() {
    let plan = Stages::new(48).unwrap();
    for round in 0..4 {
        let input = signal(48, 6000 + round);
        let mut buffer = input.clone();
        transform_with(&plan, 4, &mut buffer, true);
        assert_close(&buffer, &direct(&input, true), tolerance(48));
        transform_with(&plan, 4, &mut buffer, false);
        assert_close(&buffer, &input, tolerance(48));
    }
}

fn minus(left: Sample, right: Sample) -> Sample {
    (left.0 - right.0, left.1 - right.1)
}

fn rotate(value: Sample, forward: bool) -> Sample {
    if forward {
        (value.1, -value.0)
    } else {
        (-value.1, value.0)
    }
}

fn butterfly(x: &[Sample], forward: bool) -> Vec<Sample> {
    match x.len() {
        2 => vec![add(x[0], x[1]), minus(x[0], x[1])],
        3 => {
            let sum = add(x[1], x[2]);
            let middle = minus(x[0], scaled(sum, 0.5));
            let turn = rotate(scaled(minus(x[1], x[2]), 0.75f64.sqrt()), forward);
            vec![add(x[0], sum), add(middle, turn), minus(middle, turn)]
        }
        4 => {
            let even_sum = add(x[0], x[2]);
            let even_difference = minus(x[0], x[2]);
            let odd_sum = add(x[1], x[3]);
            let odd_turn = rotate(minus(x[1], x[3]), forward);
            vec![
                add(even_sum, odd_sum),
                add(even_difference, odd_turn),
                minus(even_sum, odd_sum),
                minus(even_difference, odd_turn),
            ]
        }
        radix => panic!("no butterfly of radix {}", radix),
    }
}

fn transform_by_butterflies(buffer: &mut [Sample], forward: bool) {
    let length = buffer.len();
    let plan = Stages::new(length).unwrap();
    let table: Vec<Sample> = plan.twiddles(forward).iter().map(|&entry| value_of(entry)).collect();
    let mut scratch = vec![(0.0, 0.0); length];
    let passes = plan.schedule(2);
    for step in &passes {
        for group in 0..step.groups() {
            for lane in 0..step.stride {
                let samples: Vec<Sample> = (0..step.radix)
                    .map(|branch| {
                        let place = step.source_index(group, lane, branch);
                        if step.from_scratch { scratch[place] } else { buffer[place] }
                    })
                    .collect();
                let results = butterfly(&samples, forward);
                for branch in 0..step.radix {
                    let place = step.target_index(group, lane, branch);
                    let result = times(results[branch], table[step.twiddle_index(group, branch)]);
                    if step.from_scratch {
                        buffer[place] = result;
                    } else {
                        scratch[place] = result;
                    }
                }
            }
        }
    }
    match finish(passes.len(), forward) {
        Finish::Nothing => {}
        Finish::Copy => buffer.copy_from_slice(&scratch),
        Finish::Scale => {
            for sample in buffer.iter_mut() {
                *sample = scaled(*sample, 1.0 / length as f64);
            }
        }
        Finish::ScaleCopy => {
            for (sample, result) in buffer.iter_mut().zip(scratch.iter()) {
                *sample = scaled(*result, 1.0 / length as f64);
            }
        }
    }
}

#[test]
fn butterflies_agree_with_the_definition() {
    for radix in [2usize, 3, 4] {
        for forward in [true, false] {
            let input = signal(radix, 7000 + radix as u64);
            assert_close(&butterfly(&input, forward), &direct(&input, forward), 1e-15);
        }
    }
}

#[test]
fn transform_by_butterflies_agrees_with_the_definition() {
    for length in LENGTHS {
        for forward in [true, false] {
            let input = signal(length, 8000 + length as u64);
            let mut buffer = input.clone();
            transform_by_butterflies(&mut buffer, forward);
            let factor = if forward { 1.0 } else { 1.0 / length as f64 };
            let expected: Vec<Sample> =
                direct(&input, forward).into_iter().map(|sample| scaled(sample, factor)).collect();
            assert_close(&buffer, &expected, tolerance(length));
        }
    }
}
