use prime_factor::{extend_twiddles, num_factors, Stages, Twiddle};

fn root(index: usize, modulus: usize, forward: bool) -> Twiddle {
    Twiddle::Root { index, modulus, forward }
}

fn only_twos_and_threes(length: usize) -> bool {
    let mut rest = length;
    if rest == 0 {
        return false;
    }
    while rest % 2 == 0 {
        rest /= 2;
    }
    while rest % 3 == 0 {
        rest /= 3;
    }
    rest == 1
}

#[test]
fn num_factors_counts_every_division() {
    assert_eq!(num_factors(4, 48), (2, 3));
    assert_eq!(num_factors(3, 81), (4, 1));
    assert_eq!(num_factors(2, 96), (5, 3));
    assert_eq!(num_factors(4, 4096), (6, 1));
}

#[test]
fn num_factors_leaves_what_it_cannot_divide() {
    assert_eq!(num_factors(4, 7), (0, 7));
    assert_eq!(num_factors(3, 1), (0, 1));
    assert_eq!(num_factors(2, 1), (0, 1));
    assert_eq!(num_factors(4, 2), (0, 2));
    assert_eq!(num_factors(4, 6), (0, 6));
}

#[test]
fn num_factors_rebuilds_the_value() {
    for factor in 2usize..=7 {
        for value in 1usize..=2000 {
            let (count, rest) = num_factors(factor, value);
            assert_ne!(rest % factor, 0);
            assert_eq!(rest * factor.pow(count as u32), value);
        }
    }
}

#[test]
fn num_factors_handles_the_largest_values() {
    assert_eq!(num_factors(2, usize::MAX), (0, usize::MAX));
    let top = 1usize << (usize::BITS - 1);
    assert_eq!(num_factors(2, top), ((usize::BITS - 1) as usize, 1));
}

#[test]
fn plan_exists_exactly_for_supported_lengths() {
    for length in 0usize..=5000 {
        assert_eq!(
            Stages::new(length).is_some(),
            only_twos_and_threes(length),
            "length {}",
            length
        );
    }
}

#[test]
fn plan_is_absent_for_foreign_prime_factors() {
    for length in [5usize, 7, 10, 50, 11, 13, 14, 15, 25, 35, 100, 1000] {
        assert!(Stages::new(length).is_none(), "length {}", length);
    }
}

#[test]
fn plan_is_absent_for_no_samples() {
    assert!(Stages::new(0).is_none());
}

#[test]
fn plan_keeps_its_length() {
    for length in [1usize, 2, 3, 4, 6, 12, 48, 81, 1024, 1536] {
        assert_eq!(Stages::new(length).unwrap().size(), length);
    }
}

#[test]
fn stages_of_small_lengths() {
    let stages = |length: usize| Stages::new(length).unwrap().stages().clone();
    assert_eq!(stages(1), vec![]);
    assert_eq!(stages(2), vec![(2, 1)]);
    assert_eq!(stages(3), vec![(3, 1)]);
    assert_eq!(stages(4), vec![(4, 1)]);
    assert_eq!(stages(6), vec![(3, 1), (2, 1)]);
    assert_eq!(stages(8), vec![(4, 1), (2, 1)]);
    assert_eq!(stages(9), vec![(3, 2)]);
    assert_eq!(stages(12), vec![(4, 1), (3, 1)]);
    assert_eq!(stages(16), vec![(4, 2)]);
    assert_eq!(stages(72), vec![(4, 1), (3, 2), (2, 1)]);
    assert_eq!(stages(1536), vec![(4, 4), (3, 1), (2, 1)]);
}

#[test]
fn stages_multiply_to_the_length() {
    for length in 1usize..=5000 {
        if let Some(plan) = Stages::new(length) {
            let mut product = 1usize;
            for &(radix, iterations) in plan.stages() {
                product *= radix.pow(iterations as u32);
            }
            assert_eq!(product, length);
        }
    }
}

#[test]
fn stages_run_from_radix_four_down() {
    for length in 1usize..=5000 {
        if let Some(plan) = Stages::new(length) {
            let stages = plan.stages();
            assert!(stages.len() <= 3);
            for stage in stages {
                assert!(stage.0 == 4 || stage.0 == 3 || stage.0 == 2);
                assert!(stage.1 >= 1);
                if stage.0 == 2 {
                    assert_eq!(stage.1, 1);
                }
            }
            for pair in stages.windows(2) {
                assert!(pair[0].0 > pair[1].0);
            }
        }
    }
}

#[test]
fn single_sample_has_neither_stage_nor_coefficient() {
    let plan = Stages::new(1).unwrap();
    assert!(plan.stages().is_empty());
    assert!(plan.twiddles(true).is_empty());
    assert!(plan.twiddles(false).is_empty());
}

#[test]
fn extend_twiddles_writes_one_band() {
    let mut forward = Vec::new();
    let mut reverse = Vec::new();
    extend_twiddles(&mut forward, &mut reverse, 6, 3, 1);
    assert_eq!(
        forward,
        vec![
            Twiddle::One,
            root(0, 6, true),
            root(0, 6, true),
            Twiddle::One,
            root(1, 6, true),
            root(2, 6, true),
        ]
    );
    assert_eq!(
        reverse,
        vec![
            Twiddle::One,
            root(0, 6, false),
            root(0, 6, false),
            Twiddle::One,
            root(1, 6, false),
            root(2, 6, false),
        ]
    );
}

#[test]
fn extend_twiddles_shrinks_from_band_to_band() {
    let mut forward = Vec::new();
    let mut reverse = Vec::new();
    extend_twiddles(&mut forward, &mut reverse, 4, 2, 2);
    assert_eq!(
        forward,
        vec![
            Twiddle::One,
            root(0, 4, true),
            Twiddle::One,
            root(1, 4, true),
            Twiddle::One,
            root(0, 2, true),
        ]
    );
    assert_eq!(reverse.len(), 6);
}

#[test]
fn extend_twiddles_appends_to_what_is_there() {
    let mut forward = vec![root(5, 7, true)];
    let mut reverse = vec![Twiddle::One, Twiddle::One];
    extend_twiddles(&mut forward, &mut reverse, 2, 2, 1);
    assert_eq!(forward, vec![root(5, 7, true), Twiddle::One, root(0, 2, true)]);
    assert_eq!(
        reverse,
        vec![Twiddle::One, Twiddle::One, Twiddle::One, root(0, 2, false)]
    );
}

#[test]
fn extend_twiddles_without_iterations_adds_nothing() {
    let mut forward = vec![Twiddle::One];
    let mut reverse = Vec::new();
    extend_twiddles(&mut forward, &mut reverse, 12, 4, 0);
    assert_eq!(forward, vec![Twiddle::One]);
    assert!(reverse.is_empty());
}

#[test]
fn extend_twiddles_drops_an_incomplete_group() {
    let mut forward = Vec::new();
    let mut reverse = Vec::new();
    extend_twiddles(&mut forward, &mut reverse, 5, 2, 1);
    assert_eq!(
        forward,
        vec![Twiddle::One, root(0, 5, true), Twiddle::One, root(1, 5, true)]
    );
    assert_eq!(reverse.len(), 4);
}

#[test]
fn table_of_eight_samples() {
    let plan = Stages::new(8).unwrap();
    assert_eq!(
        plan.twiddles(true).clone(),
        vec![
            Twiddle::One,
            root(0, 8, true),
            root(0, 8, true),
            root(0, 8, true),
            Twiddle::One,
            root(1, 8, true),
            root(2, 8, true),
            root(3, 8, true),
            Twiddle::One,
            root(0, 2, true),
        ]
    );
}

#[test]
fn tables_differ_in_direction_only() {
    for length in [2usize, 3, 4, 6, 8, 12, 36, 64, 96, 243] {
        let plan = Stages::new(length).unwrap();
        let forward = plan.twiddles(true);
        let reverse = plan.twiddles(false);
        assert_eq!(forward.len(), reverse.len());
        for (ahead, back) in forward.iter().zip(reverse.iter()) {
            match (*ahead, *back) {
                (Twiddle::One, Twiddle::One) => {}
                (
                    Twiddle::Root { index, modulus, forward: true },
                    Twiddle::Root { index: other_index, modulus: other_modulus, forward: false },
                ) => {
                    assert_eq!(index, other_index);
                    assert_eq!(modulus, other_modulus);
                }
                _ => panic!("tables of length {} disagree", length),
            }
        }
    }
}

#[test]
fn table_has_one_entry_for_each_sample_of_each_pass() {
    for length in 1usize..=3000 {
        if let Some(plan) = Stages::new(length) {
            let mut expected = 0usize;
            let mut size = length;
            for &(radix, iterations) in plan.stages() {
                for _ in 0..iterations {
                    expected += size;
                    size /= radix;
                }
            }
            assert_eq!(size, 1);
            assert_eq!(plan.twiddles(true).len(), expected);
            assert_eq!(plan.twiddles(false).len(), expected);
        }
    }
}
