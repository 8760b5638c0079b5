use tonnetz::{Mode, MidiChannels, MidiCommand, MidiEventBuffer, PitchClass, Triad};

fn channels() -> MidiChannels {
    MidiChannels {
        chord_channel: 0,
        chord_program: 0,
        chord_root_midi: 60,
        chord_velocity: 90,
        melody_channel: 1,
        melody_program: 73,
        melody_start_midi: 72,
        melody_velocity: 110,
    }
}

#[test]
fn midi_track_opens_with_program_changes_and_keeps_ticks_in_order() {
    let mut buffer = MidiEventBuffer::new(channels());
    buffer.start(Triad::new(0, Mode::Major));
    buffer.render(480, Triad::new(9, Mode::Minor), &[PitchClass::new(9)], false);
    buffer.render(720, Triad::new(9, Mode::Minor), &[PitchClass::new(4)], true);
    let track = buffer.finish(960);

    assert_eq!(track[0].command, MidiCommand::ProgramChange { program: 0 });
    assert_eq!(track[1].command, MidiCommand::ProgramChange { program: 73 });
    // 2 program changes; start: 3 chord ons + 1 melody on; step: 4 offs +
    // 4 ons; fill: 1 off + 1 on; finish: 3 chord offs + 1 melody off.
    assert_eq!(track.len(), 2 + 4 + 8 + 2 + 4);

    let mut tick = 0u32;
    let mut ticks = Vec::new();
    for e in &track {
        tick += e.delta;
        ticks.push(tick);
    }
    assert!(ticks.windows(2).all(|w| w[0] <= w[1]));
    assert_eq!(*ticks.last().unwrap(), 960);
}

#[test]
fn midi_note_offs_precede_note_ons_at_the_same_tick() {
    let mut buffer = MidiEventBuffer::new(channels());
    buffer.start(Triad::new(0, Mode::Major));
    buffer.render(0, Triad::new(0, Mode::Minor), &[PitchClass::new(3)], false);
    let track = buffer.finish(0);
    // Every delta is 0; the offs of the step (4) and of the finish (4) all
    // come before any note-on at tick 0, which keeps its buffered order.
    let first_on = track
        .iter()
        .position(|e| matches!(e.command, MidiCommand::NoteOn { .. }))
        .unwrap();
    assert!(track[first_on..].iter().all(|e| !matches!(e.command, MidiCommand::NoteOff { .. })));
    assert!(track.iter().all(|e| e.delta == 0));
    assert_eq!(track[0].command, MidiCommand::NoteOff { key: 60, velocity: 0 });
    assert_eq!(track[2].command, MidiCommand::NoteOff { key: 67, velocity: 0 });
    // The opening program changes are not offs, so they follow them.
    assert_eq!(track[8].command, MidiCommand::ProgramChange { program: 0 });
    assert_eq!(
        track.iter().filter(|e| matches!(e.command, MidiCommand::NoteOn { .. })).count(),
        8
    );
}
