use prime_factor::{finish, Finish, Pass, Stages, Twiddle, Width};

fn pass(
    radix: usize,
    size: usize,
    stride: usize,
    offset: usize,
    width: Width,
    from_scratch: bool,
) -> Pass {
    Pass { radix, size, stride, offset, width, from_scratch }
}

#[test]
fn schedule_of_twelve_samples() {
    let plan = Stages::new(12).unwrap();
    assert_eq!(
        plan.schedule(4),
        vec![
            pass(4, 12, 1, 0, Width::Narrow, false),
            pass(3, 3, 4, 12, Width::Wide, true),
        ]
    );
}

#[test]
fn schedule_of_seventy_two_samples() {
    let plan = Stages::new(72).unwrap();
    assert_eq!(
        plan.schedule(8),
        vec![
            pass(4, 72, 1, 0, Width::Narrow, false),
            pass(3, 18, 4, 72, Width::Narrow, true),
            pass(3, 6, 12, 90, Width::Wide, false),
            pass(2, 2, 36, 96, Width::Wide, true),
        ]
    );
}

#[test]
fn schedule_of_one_sample_is_empty() {
    let plan = Stages::new(1).unwrap();
    assert!(plan.schedule(4).is_empty());
    assert!(plan.schedule(0).is_empty());
}

#[test]
fn schedule_is_narrow_below_the_vector_width() {
    let plan = Stages::new(1024).unwrap();
    for lanes in [0usize, 1, 2, 3, 4, 8, 16, 1000, usize::MAX] {
        for step in plan.schedule(lanes) {
            let expected = if step.stride < lanes { Width::Narrow } else { Width::Wide };
            assert_eq!(step.width, expected);
        }
    }
}

#[test]
fn schedule_width_changes_nothing_else() {
    for length in [2usize, 12, 96, 243, 1536] {
        let plan = Stages::new(length).unwrap();
        let narrow = plan.schedule(usize::MAX);
        let wide = plan.schedule(0);
        assert_eq!(narrow.len(), wide.len());
        for (one, other) in narrow.iter().zip(wide.iter()) {
            assert_eq!(one.width, Width::Narrow);
            assert_eq!(other.width, Width::Wide);
            assert_eq!(
                (one.radix, one.size, one.stride, one.offset, one.from_scratch),
                (other.radix, other.size, other.stride, other.offset, other.from_scratch)
            );
        }
    }
}

#[test]
fn schedule_walks_size_stride_and_cursor() {
    for length in 1usize..=3000 {
        if let Some(plan) = Stages::new(length) {
            let passes = plan.schedule(4);
            let table = plan.twiddles(true).len();
            let mut size = length;
            let mut stride = 1usize;
            let mut offset = 0usize;
            let mut in_scratch = false;
            let mut radices = Vec::new();
            for &(radix, iterations) in plan.stages() {
                for _ in 0..iterations {
                    radices.push(radix);
                }
            }
            assert_eq!(passes.len(), radices.len());
            for (step, radix) in passes.iter().zip(radices) {
                assert_eq!(step.radix, radix);
                assert_eq!(step.size, size);
                assert_eq!(step.stride, stride);
                assert_eq!(step.offset, offset);
                assert_eq!(step.from_scratch, in_scratch);
                assert_eq!(step.size * step.stride, length);
                assert_eq!(step.size % step.radix, 0);
                assert!(step.admits(length, table));
                offset += size;
                size /= radix;
                stride *= radix;
                in_scratch = !in_scratch;
            }
            assert_eq!(size, 1);
            assert_eq!(stride, length);
            assert_eq!(offset, table);
        }
    }
}

#[test]
fn finish_follows_direction_and_side() {
    assert_eq!(finish(0, true), Finish::Nothing);
    assert_eq!(finish(1, true), Finish::Copy);
    assert_eq!(finish(2, true), Finish::Nothing);
    assert_eq!(finish(3, true), Finish::Copy);
    assert_eq!(finish(0, false), Finish::Scale);
    assert_eq!(finish(1, false), Finish::ScaleCopy);
    assert_eq!(finish(2, false), Finish::Scale);
    assert_eq!(finish(3, false), Finish::ScaleCopy);
    assert_eq!(finish(usize::MAX, true), Finish::Copy);
}

#[test]
fn admits_tells_sound_passes_from_others() {
    let sound = pass(3, 6, 12, 90, Width::Wide, false);
    assert!(sound.admits(72, 98));
    assert!(sound.admits(72, 96));
    assert!(!sound.admits(72, 95));
    assert!(!sound.admits(71, 98));
    assert!(!pass(1, 6, 12, 0, Width::Wide, false).admits(72, 98));
    assert!(!pass(0, 6, 12, 0, Width::Wide, false).admits(72, 98));
    assert!(!pass(4, 6, 12, 0, Width::Wide, false).admits(72, 98));
    assert!(!pass(2, 0, 12, 0, Width::Wide, false).admits(0, 98));
    assert!(!pass(2, 6, 0, 0, Width::Wide, false).admits(0, 98));
    assert!(!pass(2, usize::MAX - 1, 2, 0, Width::Wide, false).admits(usize::MAX - 3, usize::MAX));
    assert!(!pass(2, 2, 1, usize::MAX, Width::Wide, false).admits(2, usize::MAX));
}

#[test]
fn groups_divide_the_size_by_the_radix() {
    assert_eq!(pass(4, 12, 1, 0, Width::Narrow, false).groups(), 3);
    assert_eq!(pass(3, 3, 4, 12, Width::Wide, true).groups(), 1);
    assert_eq!(pass(2, 64, 16, 0, Width::Wide, true).groups(), 32);
}

#[test]
fn source_and_target_places_of_a_pass() {
    let step = pass(3, 6, 4, 0, Width::Wide, false);
    assert_eq!(step.groups(), 2);
    assert_eq!(step.source_index(0, 0, 0), 0);
    assert_eq!(step.source_index(1, 0, 0), 4);
    assert_eq!(step.source_index(0, 3, 0), 3);
    assert_eq!(step.source_index(0, 0, 1), 8);
    assert_eq!(step.source_index(1, 2, 2), 22);
    assert_eq!(step.target_index(0, 0, 0), 0);
    assert_eq!(step.target_index(1, 0, 0), 12);
    assert_eq!(step.target_index(0, 3, 0), 3);
    assert_eq!(step.target_index(0, 0, 1), 4);
    assert_eq!(step.target_index(1, 2, 2), 22);
    assert_eq!(step.target_index(1, 3, 2), 23);
}

#[test]
fn twiddle_place_of_a_pass() {
    let step = pass(3, 6, 12, 90, Width::Wide, false);
    assert_eq!(step.twiddle_index(0, 0), 90);
    assert_eq!(step.twiddle_index(0, 2), 92);
    assert_eq!(step.twiddle_index(1, 0), 93);
    assert_eq!(step.twiddle_index(1, 2), 95);
}

#[test]
fn every_place_is_read_once_and_written_once() {
    for length in [2usize, 3, 4, 6, 8, 9, 12, 24, 36, 48, 72, 96, 108, 256, 243, 384] {
        let plan = Stages::new(length).unwrap();
        for step in plan.schedule(4) {
            let mut read = vec![0u32; length];
            let mut written = vec![0u32; length];
            for group in 0..step.groups() {
                for lane in 0..step.stride {
                    for branch in 0..step.radix {
                        read[step.source_index(group, lane, branch)] += 1;
                        written[step.target_index(group, lane, branch)] += 1;
                    }
                }
            }
            assert!(read.iter().all(|&count| count == 1));
            assert!(written.iter().all(|&count| count == 1));
        }
    }
}

#[test]
fn passes_find_their_roots_in_the_table() {
    for length in [2usize, 3, 4, 6, 8, 9, 12, 24, 36, 48, 72, 96, 108, 256, 243, 384] {
        let plan = Stages::new(length).unwrap();
        for forward in [true, false] {
            let table = plan.twiddles(forward);
            let passes = plan.schedule(4);
            for step in &passes {
                for group in 0..step.groups() {
                    for branch in 0..step.radix {
                        let expected = if branch == 0 {
                            Twiddle::One
                        } else {
                            Twiddle::Root { index: group * branch, modulus: step.size, forward }
                        };
                        assert_eq!(table[step.twiddle_index(group, branch)], expected);
                    }
                }
            }
            if let Some(last) = passes.last() {
                assert_eq!(last.offset + last.size, table.len());
                assert_eq!(last.size, last.radix);
            }
        }
    }
}
