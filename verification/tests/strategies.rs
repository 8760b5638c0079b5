use rand::SeedableRng;
use rand::rngs::StdRng;
use tonnetz::strategies::{melody_of_kind, rhythm_of_kind, walk_of_kind};
use tonnetz::{
    AnyMelody, AnyWalk, DURATION_PALETTE_LEN, FreeWalk, Mode, NoFill, PitchClass, Pipeline, RhythmDraw, Triad, Utt,
    WalkStrategy, random_melody, random_rhythm, random_walk,
};

/// Everything the library draws from `seed`: the walk's and melody's first
/// 24 steps, and the first 24 timings (or palette choices) of the rhythm.
fn library_run(seed: u64) -> (Vec<(Triad, Utt, Vec<PitchClass>)>, Vec<(u128, usize)>) {
    let mut rng = StdRng::seed_from_u64(seed);
    let walk = random_walk(&mut rng);
    let melody = random_melody(&mut rng, &walk);
    let rhythm = random_rhythm(&mut rng);

    let mut pipeline = Pipeline::new(walk, melody, NoFill, Triad::new(0, Mode::Major));
    let steps = (0..24)
        .map(|_| {
            let step = pipeline.next_step();
            (step.triad, step.op, step.notes)
        })
        .collect();

    let timings = match rhythm {
        RhythmDraw::FixedPulse => Vec::new(),
        RhythmDraw::Euclid(euclidean) => (0..24).map(|i| euclidean.timing(i)).collect(),
        RhythmDraw::Windowed(mut choice) => (0..24).map(|i| (i as u128, choice.next_index(i))).collect(),
    };
    (steps, timings)
}

#[test]
fn same_seed_produces_the_same_progression() {
    assert_eq!(library_run(42), library_run(42));
}

#[test]
fn different_seeds_diverge() {
    assert_ne!(library_run(1), library_run(2));
}

#[test]
fn system_fixed_scale_is_only_ever_paired_with_cycle_confined_walk() {
    for seed in 0..500 {
        let mut rng = StdRng::seed_from_u64(seed);
        let walk = random_walk(&mut rng);
        let melody = random_melody(&mut rng, &walk);
        if matches!(melody, AnyMelody::SystemFixed(_)) {
            assert!(matches!(walk, AnyWalk::Confined(_)), "seed {seed} paired SystemFixedScale with a non-confined walk");
        }
    }
}

#[test]
fn drawn_parameters_stay_in_their_ranges() {
    for seed in 0..300 {
        let mut rng = StdRng::seed_from_u64(seed);
        let walk = random_walk(&mut rng);
        match &walk {
            AnyWalk::Tabu(w) => assert!((2..=5).contains(&w.window_len())),
            AnyWalk::Confined(w) => {
                let (numerator, denominator) = w.escape_ratio();
                assert_eq!(denominator, 1_000_000);
                assert!((50_000..=350_000).contains(&numerator));
                assert!(w.current_system().is_some());
            }
            AnyWalk::Free(_) | AnyWalk::Hamiltonian(_) => {}
        }
        let melody = random_melody(&mut rng, &walk);
        if let AnyMelody::Rolling(m) = &melody {
            assert!((2..=5).contains(&m.window));
        }
        match random_rhythm(&mut rng) {
            RhythmDraw::FixedPulse => {}
            RhythmDraw::Euclid(e) => {
                assert!((5..=12).contains(&e.step_count()));
                assert!((1..=e.step_count()).contains(&e.pulses()));
            }
            RhythmDraw::Windowed(w) => {
                assert!((2..=4).contains(&w.window_len()));
                assert_eq!(w.palette_size(), DURATION_PALETTE_LEN);
                assert_eq!(w.chosen_count(), 0);
            }
        }
    }
}

#[test]
fn every_walk_kind_and_rhythm_kind_is_drawn_for_some_seed() {
    let mut walks = [false; 4];
    let mut rhythms = [false; 3];
    for seed in 0..200 {
        let mut rng = StdRng::seed_from_u64(seed);
        let walk = random_walk(&mut rng);
        walks[match walk {
            AnyWalk::Free(_) => 0,
            AnyWalk::Tabu(_) => 1,
            AnyWalk::Hamiltonian(_) => 2,
            AnyWalk::Confined(_) => 3,
        }] = true;
        let _ = random_melody(&mut rng, &walk);
        rhythms[match random_rhythm(&mut rng) {
            RhythmDraw::FixedPulse => 0,
            RhythmDraw::Euclid(_) => 1,
            RhythmDraw::Windowed(_) => 2,
        }] = true;
    }
    assert_eq!(walks, [true; 4]);
    assert_eq!(rhythms, [true; 3]);
}

#[test]
fn each_kind_gives_its_own_strategy() {
    let mut rng = StdRng::seed_from_u64(7);
    assert!(matches!(walk_of_kind(0, &mut rng), AnyWalk::Free(_)));
    assert!(matches!(walk_of_kind(1, &mut rng), AnyWalk::Tabu(_)));
    assert!(matches!(walk_of_kind(2, &mut rng), AnyWalk::Hamiltonian(_)));
    assert!(matches!(walk_of_kind(3, &mut rng), AnyWalk::Confined(_)));
    assert!(matches!(melody_of_kind(0, &mut rng), AnyMelody::Moving(_)));
    assert!(matches!(melody_of_kind(1, &mut rng), AnyMelody::Tight(_)));
    assert!(matches!(melody_of_kind(2, &mut rng), AnyMelody::Rolling(_)));
    assert!(matches!(melody_of_kind(3, &mut rng), AnyMelody::SystemFixed(_)));
    assert!(matches!(rhythm_of_kind(0, &mut rng), RhythmDraw::FixedPulse));
    assert!(matches!(rhythm_of_kind(1, &mut rng), RhythmDraw::Euclid(_)));
    assert!(matches!(rhythm_of_kind(2, &mut rng), RhythmDraw::Windowed(_)));
}

#[test]
fn a_free_walk_draws_from_the_generator_it_was_given() {
    let mut a = FreeWalk::with_rng(StdRng::seed_from_u64(3));
    let mut b = FreeWalk::with_rng(StdRng::seed_from_u64(3));
    let mut t = Triad::new(0, Mode::Major);
    for _ in 0..50 {
        let (next_a, op_a) = a.next(t, &[]);
        let (next_b, op_b) = b.next(t, &[]);
        assert_eq!((next_a, op_a), (next_b, op_b));
        t = next_a;
    }
}

#[test]
fn a_run_seeded_through_the_library_matches_one_seeded_directly() {
    let mut a = tonnetz::rng_from_seed(42);
    let mut b = StdRng::seed_from_u64(42);
    let (wa, wb) = (random_walk(&mut a), random_walk(&mut b));
    assert_eq!(std::mem::discriminant(&wa), std::mem::discriminant(&wb));
}
