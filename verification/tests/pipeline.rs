use rand::SeedableRng;
use rand::rngs::StdRng;
use tonnetz::fill::sort_fills;
use tonnetz::{
    CycleConfinedWalk, FillNote, GapEvent, FillStrategy, FreeWalk, HamiltonianCycleWalk, MelodyStrategy, Mode,
    MovingVoice, NoFill, PitchClass, Pipeline, Step, System, SystemFixedScale, Triad, Utt, WalkStrategy,
};

#[test]
fn pipeline_matches_manual_step_by_step_composition() {
    let start = Triad::new(0, Mode::Major);
    let mut pipeline = Pipeline::new(FreeWalk::with_rng(StdRng::seed_from_u64(11)), MovingVoice, NoFill, start);

    let mut manual_walk = FreeWalk::with_rng(StdRng::seed_from_u64(11));
    let mut manual_melody = MovingVoice;
    let mut manual_history = vec![start];
    let mut manual_triad = start;

    for i in 0..20 {
        let step = pipeline.next_step();

        let (next, op) = manual_walk.next(manual_triad, &manual_history);
        let notes = manual_melody.notes(manual_triad, next, op, &manual_history);
        manual_history.push(next);
        manual_triad = next;

        assert_eq!(step.triad, next);
        assert_eq!(step.op, op);
        assert_eq!(step.notes, notes);
        assert_eq!(step.event_index, i);
        assert!(step.fills.is_empty());
    }
    assert_eq!(pipeline.current(), manual_triad);
}

#[test]
fn pipeline_pushes_the_walk_s_current_system_into_system_fixed_scale() {
    // A zero escape chance stays confined to Hexatonic every step, so every
    // step's notes are the fixed 6-note collection of that step's triad.
    let mut pipeline = Pipeline::new(
        CycleConfinedWalk::with_rng(System::Hexatonic, 0, 1, StdRng::seed_from_u64(5)),
        SystemFixedScale::new(),
        NoFill,
        Triad::new(0, Mode::Major),
    );
    for _ in 0..6 {
        let step = pipeline.next_step();
        let mut expected: Vec<_> = System::Hexatonic.pitch_classes(step.triad);
        expected.sort_by_key(|pc| pc.0);
        let mut notes = step.notes.clone();
        notes.sort_by_key(|pc| pc.0);
        assert_eq!(notes, expected);
    }
}

#[test]
fn pipeline_moving_voice_always_yields_exactly_one_note() {
    let mut pipeline = Pipeline::new(HamiltonianCycleWalk::new(), MovingVoice, NoFill, Triad::new(0, Mode::Major));
    for _ in 0..24 {
        let step = pipeline.next_step();
        assert_eq!(step.notes.len(), 1, "P/L/R always move exactly one voice");
        assert!(step.op == Utt::R() || step.op == Utt::L());
    }
}

struct FixedFill;
impl FillStrategy for FixedFill {
    fn fills(&mut self, _triad: Triad) -> Vec<FillNote> {
        vec![
            FillNote { numerator: 1, denominator: 4, pitch: PitchClass::new(1) },
            FillNote { numerator: 3, denominator: 4, pitch: PitchClass::new(2) },
        ]
    }
}

/// One event per whole time unit: onset = event index, duration = 1.0.
fn constant_rhythm(event_index: usize) -> (f64, f64) {
    (event_index as f64, 1.0)
}

fn fraction((numerator, denominator): (u128, u128)) -> f64 {
    numerator as f64 / denominator as f64
}

/// A step's events timed by `constant_rhythm`, as (event, onset, duration).
fn timed_events(step: Step) -> Vec<(GapEvent, f64, f64)> {
    let (onset, duration) = constant_rhythm(step.event_index);
    step.events()
        .into_iter()
        .map(|e| {
            let start = onset + fraction(e.start) * duration;
            let length = if e.is_fill {
                onset + fraction(e.end) * duration - start
            } else {
                fraction(e.end) * duration
            };
            (e, start, length)
        })
        .collect()
}

#[test]
fn fills_are_interleaved_with_chained_durations_between_main_events() {
    let mut pipeline = Pipeline::new(
        HamiltonianCycleWalk::new(),
        MovingVoice,
        FixedFill, // fills at 0.25 and 0.75 of the gap
        Triad::new(0, Mode::Major),
    );

    // Step 0: the main event's own duration shrinks to reach the first fill
    // (0.25); fills chain legato from there to the next main onset (1.0).
    let events0 = timed_events(pipeline.next_step());
    assert_eq!(events0.len(), 3);
    let (main0, main0_onset, main0_duration) = &events0[0];
    assert!(!main0.is_fill);
    assert_eq!((*main0_onset, *main0_duration), (0.0, 0.25));

    let (fill0a, fill0a_onset, fill0a_duration) = &events0[1];
    assert!(fill0a.is_fill);
    assert_eq!(fill0a.op, Utt::IDENTITY());
    assert_eq!(fill0a.triad, main0.triad, "fills don't move the harmonic walk");
    assert_eq!(fill0a.notes, vec![PitchClass::new(1)]);
    assert_eq!((*fill0a_onset, *fill0a_duration), (0.25, 0.5));

    let (fill0b, fill0b_onset, fill0b_duration) = &events0[2];
    assert!(fill0b.is_fill);
    assert_eq!(fill0b.notes, vec![PitchClass::new(2)]);
    assert_eq!((*fill0b_onset, *fill0b_duration), (0.75, 0.25));

    // The next main event picks up exactly where the last fill left off,
    // with its own full duration shrunk the same way.
    let events1 = timed_events(pipeline.next_step());
    let (main1, main1_onset, main1_duration) = &events1[0];
    assert!(!main1.is_fill);
    assert_eq!((*main1_onset, *main1_duration), (1.0, 0.25));
    assert_ne!(main1.triad, main0.triad, "the walk still advances on main events");
}

#[test]
fn without_fills_the_main_event_fills_the_whole_gap() {
    let mut pipeline = Pipeline::new(HamiltonianCycleWalk::new(), MovingVoice, NoFill, Triad::new(0, Mode::Major));
    let step = pipeline.next_step();
    let triad = step.triad;
    let events = step.events();
    assert_eq!(events.len(), 1);
    assert_eq!(events[0].triad, triad);
    assert_eq!((events[0].start, events[0].end), ((0, 1), (1, 1)));
}

struct UnorderedFill;
impl FillStrategy for UnorderedFill {
    fn fills(&mut self, _triad: Triad) -> Vec<FillNote> {
        vec![
            FillNote { numerator: 3, denominator: 4, pitch: PitchClass::new(2) },
            FillNote { numerator: 1, denominator: 4, pitch: PitchClass::new(1) },
            FillNote { numerator: 2, denominator: 8, pitch: PitchClass::new(5) },
        ]
    }
}

#[test]
fn a_step_sorts_its_fills_by_fraction_keeping_ties_in_order() {
    let mut pipeline =
        Pipeline::new(HamiltonianCycleWalk::new(), MovingVoice, UnorderedFill, Triad::new(0, Mode::Major));
    let step = pipeline.next_step();
    assert_eq!(step.triad, Triad::new(9, Mode::Minor));
    assert_eq!(step.op, Utt::R());
    assert_eq!(step.notes, vec![PitchClass::new(9)]);
    let pitches: Vec<PitchClass> = step.fills.iter().map(|f| f.pitch).collect();
    assert_eq!(pitches, vec![PitchClass::new(1), PitchClass::new(5), PitchClass::new(2)]);
    let events = timed_events(step);
    let spans: Vec<(f64, f64)> = events.iter().map(|(_, onset, duration)| (*onset, *duration)).collect();
    assert_eq!(spans, vec![(0.0, 0.25), (0.25, 0.0), (0.25, 0.5), (0.75, 0.25)]);
}

#[test]
fn sorting_fills_is_stable() {
    let fills = vec![
        FillNote { numerator: 1, denominator: 2, pitch: PitchClass::new(0) },
        FillNote { numerator: 1, denominator: 3, pitch: PitchClass::new(1) },
        FillNote { numerator: 2, denominator: 4, pitch: PitchClass::new(2) },
        FillNote { numerator: 1, denominator: 5, pitch: PitchClass::new(3) },
    ];
    let pitches: Vec<u8> = sort_fills(fills).iter().map(|f| f.pitch.0).collect();
    assert_eq!(pitches, vec![3, 1, 0, 2]);
}
