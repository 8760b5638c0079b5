use tonnetz::{Mode, PitchClass, Triad, Utt, VoiceTracker, nearest_midi_note, triad_midi_notes};

#[test]
fn triad_midi_notes_never_wrap_below_the_root() {
    for root in 0..12 {
        for mode in [Mode::Major, Mode::Minor] {
            let notes = triad_midi_notes(Triad::new(root, mode), 60);
            assert!(notes[0] < notes[1] && notes[1] < notes[2]);
            assert_eq!(notes[2] - notes[0], 7);
        }
    }
}

#[test]
fn nearest_midi_note_matches_the_pitch_class() {
    for reference in 40..90 {
        for pc in 0..12 {
            let note = nearest_midi_note(reference, PitchClass::new(pc));
            assert_eq!(note.rem_euclid(12), pc.rem_euclid(12));
        }
    }
}

#[test]
fn nearest_midi_note_never_moves_more_than_a_tritone() {
    for reference in 40..90 {
        for pc in 0..12 {
            let note = nearest_midi_note(reference, PitchClass::new(pc));
            assert!((note - reference).abs() <= 6, "{note} too far from {reference}");
        }
    }
}

#[test]
fn nearest_midi_note_examples() {
    // B is the nearest occurrence of pitch class 11 below middle C.
    assert_eq!(nearest_midi_note(72, PitchClass::new(11)), 71);
    // C# a semitone above middle C, not a semitone below.
    assert_eq!(nearest_midi_note(60, PitchClass::new(1)), 61);
}

#[test]
fn nearest_midi_note_breaks_a_tritone_tie_downward() {
    assert_eq!(nearest_midi_note(60, PitchClass::new(6)), 54);
    assert_eq!(nearest_midi_note(-3, PitchClass::new(3)), -9);
}

#[test]
fn voice_tracker_start_turns_on_with_no_offs() {
    let mut tracker = VoiceTracker::new(60, 72);
    let change = tracker.start(Triad::new(0, Mode::Major));
    assert_eq!(change.chord_off, None);
    assert_eq!(change.melody_off, None);
    assert_eq!(change.chord_on, Some([60, 64, 67]));
    assert_eq!(change.melody_on, Some(nearest_midi_note(72, PitchClass::new(0))));
}

#[test]
fn voice_tracker_advance_turns_off_previous_and_on_next() {
    let mut tracker = VoiceTracker::new(60, 72);
    let start = tracker.start(Triad::new(0, Mode::Major));

    let c_major = Triad::new(0, Mode::Major);
    let a_minor = Utt::R().apply(c_major);
    // The new A that MovingVoice would report.
    let change = tracker.advance(a_minor, &[PitchClass::new(9)]);

    assert_eq!(change.chord_off, start.chord_on);
    assert_eq!(change.melody_off, start.melody_on);
    assert_eq!(change.chord_on, Some(triad_midi_notes(a_minor, 60)));
    // Anchored on the previous melody note, not re-derived from scratch.
    let anchor = start.melody_on.unwrap();
    assert_eq!(change.melody_on, Some(nearest_midi_note(anchor, PitchClass::new(9))));
}

#[test]
fn voice_tracker_advance_with_no_melody_notes_turns_off_without_turning_on() {
    let mut tracker = VoiceTracker::new(60, 72);
    tracker.start(Triad::new(0, Mode::Major));

    let change = tracker.advance(Triad::new(0, Mode::Minor), &[]);
    assert!(change.melody_off.is_some());
    assert_eq!(change.melody_on, None);
}

#[test]
fn voice_tracker_finish_turns_off_whatever_was_last_playing() {
    let mut tracker = VoiceTracker::new(60, 72);
    let start = tracker.start(Triad::new(0, Mode::Major));
    let change = tracker.finish();
    assert_eq!(change.chord_off, start.chord_on);
    assert_eq!(change.melody_off, start.melody_on);
    assert_eq!(change.chord_on, None);
    assert_eq!(change.melody_on, None);

    // A second finish() has nothing left to turn off.
    let again = tracker.finish();
    assert_eq!(again.chord_off, None);
    assert_eq!(again.melody_off, None);
}

#[test]
fn advance_fill_leaves_the_chord_untouched() {
    let mut tracker = VoiceTracker::new(60, 72);
    let start = tracker.start(Triad::new(0, Mode::Major));

    let change = tracker.advance_fill(PitchClass::new(7));
    assert_eq!(change.chord_off, None);
    assert_eq!(change.chord_on, None);
    assert_eq!(change.melody_off, start.melody_on);
    // Anchored on the previous melody note, same as `advance`.
    let anchor = start.melody_on.unwrap();
    assert_eq!(change.melody_on, Some(nearest_midi_note(anchor, PitchClass::new(7))));
}

#[test]
fn advance_fill_chains_off_the_previous_fill() {
    let mut tracker = VoiceTracker::new(60, 72);
    tracker.start(Triad::new(0, Mode::Major));

    let first = tracker.advance_fill(PitchClass::new(7));
    let second = tracker.advance_fill(PitchClass::new(4));
    assert_eq!(second.melody_off, first.melody_on);
    assert_eq!(second.chord_off, None);
    assert_eq!(second.chord_on, None);
}

#[test]
fn voice_tracker_after_a_silent_step_anchors_on_the_start_note() {
    let mut tracker = VoiceTracker::new(48, 72);
    tracker.start(Triad::new(0, Mode::Major));
    tracker.advance(Triad::new(0, Mode::Minor), &[]);
    let change = tracker.advance(Triad::new(7, Mode::Major), &[PitchClass::new(11)]);
    assert_eq!(change.melody_off, None);
    assert_eq!(change.melody_on, Some(71));
    assert_eq!(change.chord_on, Some([48, 52, 55]));
    assert!(tracker.can_advance(&[PitchClass::new(0)]));
}

#[test]
fn a_fresh_tracker_has_nothing_sounding() {
    let mut tracker = VoiceTracker::new(60, 72);
    let change = tracker.finish();
    assert_eq!(change.chord_off, None);
    assert_eq!(change.chord_on, None);
    assert_eq!(change.melody_off, None);
    assert_eq!(change.melody_on, None);
    let mut fresh = VoiceTracker::new(60, 72);
    let fill = fresh.advance_fill(PitchClass::new(1));
    assert_eq!(fill.melody_off, None);
    assert_eq!(fill.melody_on, Some(nearest_midi_note(72, PitchClass::new(1))));
}

#[test]
fn nearest_note_works_up_to_twenty_from_the_ends_of_i32() {
    // From 20 away, every pitch class's octave candidates still fit.
    let low = i32::MIN + 20;
    let high = i32::MAX - 20;
    let mut tracker = VoiceTracker::new(60, low);
    for pc in 0..12 {
        assert!(tracker.can_advance_fill(PitchClass::new(pc)));
    }
    assert_eq!(nearest_midi_note(low, PitchClass::new(low.rem_euclid(12) as i32)), low);
    let fill = tracker.advance_fill(PitchClass::new(0));
    assert_eq!(fill.melody_on, Some(nearest_midi_note(low, PitchClass::new(0))));
    let top = VoiceTracker::new(60, high);
    for pc in 0..12 {
        assert!(top.can_advance_fill(PitchClass::new(pc)));
    }
    // Closer than that, the pitch classes whose candidates overflow are refused.
    let edge = VoiceTracker::new(60, i32::MIN + 8);
    assert!(!edge.can_advance_fill(PitchClass::new(0)));
    let top_edge = VoiceTracker::new(60, i32::MAX);
    assert!(!top_edge.can_advance_fill(PitchClass::new(11)));
}
