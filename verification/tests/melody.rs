use tonnetz::{
    AnyMelody, MelodyStrategy, Mode, MovingVoice, PitchClass, RollingWindowScale, System,
    SystemFixedScale, TightScale, Triad, Utt,
};

#[test]
fn moving_voice_returns_exactly_the_note_that_changed() {
    let c_major = Triad::new(0, Mode::Major);
    let a_minor = Utt::R().apply(c_major);
    let mut strategy = MovingVoice;
    let notes = strategy.notes(c_major, a_minor, Utt::R(), &[]);
    // C major = {C, E, G}; A minor = {A, E, C}; only A is new.
    assert_eq!(notes, vec![PitchClass::new(9)]);
}

#[test]
fn tight_scale_returns_the_new_triad() {
    let c_major = Triad::new(0, Mode::Major);
    let mut strategy = TightScale;
    let mut notes = strategy.notes(c_major, c_major, Utt::IDENTITY(), &[]);
    notes.sort_by_key(|pc| pc.0);
    assert_eq!(notes, vec![PitchClass::new(0), PitchClass::new(4), PitchClass::new(7)]);
}

#[test]
fn rolling_window_scale_of_1_matches_tight_scale() {
    let c_major = Triad::new(0, Mode::Major);
    let mut strategy = RollingWindowScale { window: 1 };
    let mut notes = strategy.notes(c_major, c_major, Utt::IDENTITY(), &[]);
    notes.sort_by_key(|pc| pc.0);
    assert_eq!(notes, vec![PitchClass::new(0), PitchClass::new(4), PitchClass::new(7)]);
}

#[test]
fn system_fixed_scale_falls_back_to_tight_scale_before_set_system() {
    let c_major = Triad::new(0, Mode::Major);
    let mut strategy = SystemFixedScale::new();
    let mut notes = strategy.notes(c_major, c_major, Utt::IDENTITY(), &[]);
    notes.sort_by_key(|pc| pc.0);
    assert_eq!(notes, vec![PitchClass::new(0), PitchClass::new(4), PitchClass::new(7)]);
}

#[test]
fn system_fixed_scale_uses_the_pushed_system_once_set() {
    let c_major = Triad::new(0, Mode::Major);
    let mut strategy = SystemFixedScale::new();
    strategy.set_system(System::Hexatonic);
    let mut notes = strategy.notes(c_major, c_major, Utt::IDENTITY(), &[]);
    notes.sort_by_key(|pc| pc.0);
    let expected: Vec<PitchClass> = [0, 3, 4, 7, 8, 11].map(PitchClass::new).to_vec();
    assert_eq!(notes, expected);
}

#[test]
fn rolling_window_scale_unions_across_the_window() {
    // C major -R-> A minor -L-> F major: window 2 at the F-major step
    // unions F major's and A minor's pitch classes only.
    let c_major = Triad::new(0, Mode::Major);
    let a_minor = Utt::R().apply(c_major);
    let f_major = Utt::L().apply(a_minor);
    let mut strategy = RollingWindowScale { window: 2 };
    let mut notes = strategy.notes(a_minor, f_major, Utt::L(), &[c_major, a_minor]);
    notes.sort_by_key(|pc| pc.0);
    // A minor = {A, C, E}, F major = {F, A, C}; C major's G is excluded.
    assert_eq!(
        notes,
        vec![PitchClass::new(0), PitchClass::new(4), PitchClass::new(5), PitchClass::new(9)]
    );
}

#[test]
fn rolling_window_scale_is_already_ascending_and_window_zero_is_tight() {
    let c_major = Triad::new(0, Mode::Major);
    let e_minor = Utt::L().apply(c_major);
    let mut wide = RollingWindowScale { window: 5 };
    let notes = wide.notes(c_major, e_minor, Utt::L(), &[c_major]);
    assert_eq!(notes, vec![PitchClass(0), PitchClass(4), PitchClass(7), PitchClass(11)]);
    let mut zero = RollingWindowScale { window: 0 };
    assert_eq!(zero.notes(c_major, e_minor, Utt::L(), &[c_major]), vec![PitchClass(4), PitchClass(7), PitchClass(11)]);
}

#[test]
fn moving_voice_yields_one_note_for_every_plr_step() {
    let mut strategy = MovingVoice;
    for r in 0..12 {
        for mode in [Mode::Major, Mode::Minor] {
            let t = Triad::new(r, mode);
            for op in [Utt::P(), Utt::L(), Utt::R()] {
                assert_eq!(strategy.notes(t, op.apply(t), op, &[]).len(), 1);
            }
        }
    }
}

#[test]
fn any_melody_delegates_and_forwards_the_system() {
    let c_major = Triad::new(0, Mode::Major);
    let mut fixed = AnyMelody::SystemFixed(SystemFixedScale::new());
    fixed.set_system(System::Octatonic);
    assert_eq!(fixed.notes(c_major, c_major, Utt::IDENTITY(), &[]).len(), 8);
    let mut moving = AnyMelody::Moving(MovingVoice);
    moving.set_system(System::Octatonic);
    assert_eq!(moving.notes(c_major, Utt::P().apply(c_major), Utt::P(), &[]), vec![PitchClass(3)]);
}
