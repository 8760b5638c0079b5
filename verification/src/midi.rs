//! The Standard MIDI File track logic: the voice-leading state machine's
//! note changes buffered as MIDI commands at absolute ticks, then ordered
//! (note-offs before note-ons at the same tick, otherwise in the order
//! they were produced) and delta-encoded into one track.

use vstd::prelude::*;

use crate::harmony::{PitchClass, Triad};
use crate::voice::{NoteChange, VoiceState, VoiceTracker};

verus! {

/// A MIDI channel message, with raw data bytes.
#[derive(Clone, Copy, Debug, PartialEq, Eq)]
pub enum MidiCommand {
    NoteOn { key: u8, velocity: u8 },
    NoteOff { key: u8, velocity: u8 },
    ProgramChange { program: u8 },
}

/// A channel message at an absolute tick. `is_off` orders a note-off due
/// at the same tick as a note-on before it.
#[derive(Clone, Copy, Debug, PartialEq, Eq)]
pub struct TimedCommand {
    pub tick: u32,
    pub is_off: bool,
    pub channel: u8,
    pub command: MidiCommand,
}

/// A channel message after delta-encoding: `delta` ticks after the one
/// before it in the track.
#[derive(Clone, Copy, Debug, PartialEq, Eq)]
pub struct TrackCommand {
    pub delta: u32,
    pub channel: u8,
    pub command: MidiCommand,
}

/// Channel routing for the chord and the melody voice.
#[derive(Clone, Copy, Debug, PartialEq, Eq)]
pub struct MidiChannels {
    pub chord_channel: u8,
    pub chord_program: u8,
    pub chord_root_midi: i32,
    pub chord_velocity: u8,
    pub melody_channel: u8,
    pub melody_program: u8,
    pub melody_start_midi: i32,
    pub melody_velocity: u8,
}

/// A note-on or note-off for MIDI note `key` (its low byte is the data
/// byte).
pub open spec fn note_command(tick: u32, is_off: bool, channel: u8, key: i32, velocity: u8) -> TimedCommand {
    TimedCommand {
        tick,
        is_off,
        channel,
        command: if is_off {
            MidiCommand::NoteOff { key: key as u8, velocity }
        } else {
            MidiCommand::NoteOn { key: key as u8, velocity }
        },
    }
}

/// A change's commands at `tick`: chord offs, melody off, chord ons,
/// melody on. Note-offs carry velocity 0.
pub open spec fn change_commands(ch: MidiChannels, tick: u32, change: NoteChange) -> Seq<TimedCommand> {
    let chord_offs = match change.chord_off {
        Some(a) => seq![
            note_command(tick, true, ch.chord_channel, a[0], 0),
            note_command(tick, true, ch.chord_channel, a[1], 0),
            note_command(tick, true, ch.chord_channel, a[2], 0),
        ],
        None => Seq::<TimedCommand>::empty(),
    };
    let melody_off = match change.melody_off {
        Some(m) => seq![note_command(tick, true, ch.melody_channel, m, 0)],
        None => Seq::<TimedCommand>::empty(),
    };
    let chord_ons = match change.chord_on {
        Some(a) => seq![
            note_command(tick, false, ch.chord_channel, a[0], ch.chord_velocity),
            note_command(tick, false, ch.chord_channel, a[1], ch.chord_velocity),
            note_command(tick, false, ch.chord_channel, a[2], ch.chord_velocity),
        ],
        None => Seq::<TimedCommand>::empty(),
    };
    let melody_on = match change.melody_on {
        Some(m) => seq![note_command(tick, false, ch.melody_channel, m, ch.melody_velocity)],
        None => Seq::<TimedCommand>::empty(),
    };
    chord_offs + melody_off + chord_ons + melody_on
}

/// The two program changes a track opens with, chord first.
pub open spec fn opening_commands(ch: MidiChannels) -> Seq<TimedCommand> {
    seq![
        TimedCommand {
            tick: 0,
            is_off: false,
            channel: ch.chord_channel,
            command: MidiCommand::ProgramChange { program: ch.chord_program },
        },
        TimedCommand {
            tick: 0,
            is_off: false,
            channel: ch.melody_channel,
            command: MidiCommand::ProgramChange { program: ch.melody_program },
        },
    ]
}

/// `a` sorts strictly before `b` by (tick, note-offs first).
pub open spec fn key_lt(a: TimedCommand, b: TimedCommand) -> bool {
    a.tick < b.tick || (a.tick == b.tick && a.is_off && !b.is_off)
}

/// Command `i` of `events` comes before command `j` in the track: by
/// (tick, note-offs first), and in buffer order among equal keys.
pub open spec fn comes_before(events: Seq<TimedCommand>, i: int, j: int) -> bool {
    ||| key_lt(events[i], events[j])
    ||| (!key_lt(events[j], events[i]) && i < j)
}

/// `order` lists every buffered command's position exactly once, in
/// track order: a stable sort of `events` by (tick, note-offs first).
pub open spec fn is_track_order(events: Seq<TimedCommand>, order: Seq<usize>) -> bool {
    &&& order.len() == events.len()
    &&& forall|k: int| 0 <= k < order.len() ==> #[trigger] order[k] < events.len()
    &&& forall|x: usize| x < events.len() ==> order.contains(x)
    &&& forall|i: int, j: int|
        0 <= i < j < order.len() ==> comes_before(events, order[i] as int, order[j] as int)
}

/// Delta-encoding of commands already in track order: each delta is the
/// tick gap since the previous command (from tick 0 for the first).
pub open spec fn encode(ordered: Seq<TimedCommand>) -> Seq<TrackCommand> {
    Seq::new(
        ordered.len(),
        |i: int|
            TrackCommand {
                delta: if i == 0 {
                    ordered[0].tick
                } else if ordered[i].tick >= ordered[i - 1].tick {
                    (ordered[i].tick - ordered[i - 1].tick) as u32
                } else {
                    0
                },
                channel: ordered[i].channel,
                command: ordered[i].command,
            },
    )
}

/// The sum of the first `n` deltas of a track.
pub open spec fn elapsed(track: Seq<TrackCommand>, n: nat) -> int
    decreases n,
{
    if n == 0 || n > track.len() {
        0
    } else {
        elapsed(track, (n - 1) as nat) + track[n - 1].delta
    }
}

/// A fill carries its note and that note fits; a walk step's notes fit.
pub open spec fn render_fits(voice: VoiceState, notes: Seq<PitchClass>, is_fill: bool) -> bool {
    if is_fill {
        notes.len() > 0 && voice.fill_fits(notes[0])
    } else {
        voice.advance_fits(notes)
    }
}

/// Buffers a walk's note changes as MIDI commands and turns them into a
/// delta-encoded track.
pub struct MidiEventBuffer {
    channels: MidiChannels,
    voice: VoiceTracker,
    events: Vec<TimedCommand>,
}

impl MidiEventBuffer {
    pub closed spec fn channels(&self) -> MidiChannels {
        self.channels
    }

    pub closed spec fn voice(&self) -> VoiceState {
        self.voice@
    }

    /// Every command buffered so far, in the order produced.
    pub closed spec fn events(&self) -> Seq<TimedCommand> {
        self.events@
    }

    pub fn new(channels: MidiChannels) -> (b: MidiEventBuffer)
        ensures
            b.channels() == channels,
            b.events() == opening_commands(channels),
            b.voice() == (VoiceState {
                chord_root_midi: channels.chord_root_midi as int,
                melody_start_midi: channels.melody_start_midi as int,
                chord: None,
                melody: None,
            }),
    {
        let voice = VoiceTracker::new(channels.chord_root_midi, channels.melody_start_midi);
        let mut events: Vec<TimedCommand> = Vec::new();
        events.push(
            TimedCommand {
                tick: 0,
                is_off: false,
                channel: channels.chord_channel,
                command: MidiCommand::ProgramChange { program: channels.chord_program },
            },
        );
        events.push(
            TimedCommand {
                tick: 0,
                is_off: false,
                channel: channels.melody_channel,
                command: MidiCommand::ProgramChange { program: channels.melody_program },
            },
        );
        assert(events@ =~= opening_commands(channels));
        MidiEventBuffer { channels, voice, events }
    }

    /// Whether `start(triad)` can compute its notes in `i32`.
    pub fn can_start(&self, triad: Triad) -> (b: bool)
        ensures
            b == self.voice().start_fits(triad),
    {
        self.voice.can_start(triad)
    }

    /// Whether `render(_, _, notes, is_fill)` can compute its notes in
    /// `i32` (a fill needs its note).
    pub fn can_render(&self, notes: &[PitchClass], is_fill: bool) -> (b: bool)
        ensures
            b == render_fits(self.voice(), notes@, is_fill),
    {
        if is_fill {
            notes.len() > 0 && self.voice.can_advance_fill(notes[0])
        } else {
            self.voice.can_advance(notes)
        }
    }

    fn push_note(&mut self, tick: u32, is_off: bool, channel: u8, key: i32, velocity: u8)
        ensures
            final(self).events() == old(self).events().push(
                note_command(tick, is_off, channel, key, velocity),
            ),
            final(self).channels() == old(self).channels(),
            final(self).voice() == old(self).voice(),
    {
        let command = if is_off {
            MidiCommand::NoteOff { key: key as u8, velocity }
        } else {
            MidiCommand::NoteOn { key: key as u8, velocity }
        };
        self.events.push(TimedCommand { tick, is_off, channel, command });
    }

    fn push_change(&mut self, tick: u32, change: NoteChange)
        ensures
            final(self).events() == old(self).events() + change_commands(
                old(self).channels(),
                tick,
                change,
            ),
            final(self).channels() == old(self).channels(),
            final(self).voice() == old(self).voice(),
    {
        let ch = self.channels;
        let ghost start = self.events@;
        if let Some(notes) = change.chord_off {
            self.push_note(tick, true, ch.chord_channel, notes[0], 0);
            self.push_note(tick, true, ch.chord_channel, notes[1], 0);
            self.push_note(tick, true, ch.chord_channel, notes[2], 0);
        }
        if let Some(midi) = change.melody_off {
            self.push_note(tick, true, ch.melody_channel, midi, 0);
        }
        if let Some(notes) = change.chord_on {
            self.push_note(tick, false, ch.chord_channel, notes[0], ch.chord_velocity);
            self.push_note(tick, false, ch.chord_channel, notes[1], ch.chord_velocity);
            self.push_note(tick, false, ch.chord_channel, notes[2], ch.chord_velocity);
        }
        if let Some(midi) = change.melody_on {
            self.push_note(tick, false, ch.melody_channel, midi, ch.melody_velocity);
        }
        assert(self.events@ =~= start + change_commands(ch, tick, change));
    }

    /// Starts the seed triad at tick 0.
    pub fn start(&mut self, triad: Triad)
        requires
            old(self).voice().start_fits(triad),
        ensures
            final(self).voice() == old(self).voice().start(triad).0,
            exists|change: NoteChange|
                change@ == old(self).voice().start(triad).1 && final(self).events() == old(
                    self,
                ).events() + change_commands(old(self).channels(), 0, change),
            final(self).channels() == old(self).channels(),
    {
        let change = self.voice.start(triad);
        self.push_change(0, change);
    }

    /// Buffers one event at `tick`: a walk step's chord and first melody
    /// note, or (for a fill) its melody note alone.
    pub fn render(&mut self, tick: u32, triad: Triad, notes: &[PitchClass], is_fill: bool)
        requires
            render_fits(old(self).voice(), notes@, is_fill),
        ensures
            final(self).voice() == if is_fill {
                old(self).voice().advance_fill(notes@[0]).0
            } else {
                old(self).voice().advance(triad, notes@).0
            },
            exists|change: NoteChange|
                {
                    &&& change@ == if is_fill {
                        old(self).voice().advance_fill(notes@[0]).1
                    } else {
                        old(self).voice().advance(triad, notes@).1
                    }
                    &&& final(self).events() == old(self).events() + change_commands(
                        old(self).channels(),
                        tick,
                        change,
                    )
                },
            final(self).channels() == old(self).channels(),
    {
        let change = if is_fill {
            self.voice.advance_fill(notes[0])
        } else {
            self.voice.advance(triad, notes)
        };
        self.push_change(tick, change);
    }

    /// Stops whatever is sounding at `tick` and returns the whole track:
    /// every buffered command in (tick, note-offs first) order, stable
    /// otherwise, delta-encoded.
    pub fn finish(&mut self, tick: u32) -> (track: Vec<TrackCommand>)
        ensures
            final(self).voice() == old(self).voice().finish().0,
            exists|change: NoteChange|
                change@ == old(self).voice().finish().1 && final(self).events() == old(self).events()
                    + change_commands(old(self).channels(), tick, change),
            exists|order: Seq<usize>|
                {
                    &&& is_track_order(final(self).events(), order)
                    &&& track@ == encode(order.map_values(|k: usize| final(self).events()[k as int]))
                },
    {
        let change = self.voice.finish();
        self.push_change(tick, change);
        let order = track_order(&self.events);
        let ghost ordered = order@.map_values(|k: usize| self.events@[k as int]);
        let mut track: Vec<TrackCommand> = Vec::new();
        let mut last_tick: u32 = 0;
        let mut i: usize = 0;
        while i < order.len()
            invariant
                i <= order@.len(),
                is_track_order(self.events@, order@),
                ordered == order@.map_values(|k: usize| self.events@[k as int]),
                track@ == encode(ordered).take(i as int),
                i > 0 ==> last_tick == ordered[i - 1].tick,
                i == 0 ==> last_tick == 0,
            decreases order@.len() - i,
        {
            let e = self.events[order[i]];
            assert(e == ordered[i as int]);
            let delta = e.tick.saturating_sub(last_tick);
            track.push(TrackCommand { delta, channel: e.channel, command: e.command });
            assert(track@ =~= encode(ordered).take(i + 1));
            last_tick = e.tick;
            i = i + 1;
        }
        assert(track@ =~= encode(ordered));
        track
    }
}

/// Positions of `events` in track order, by insertion of each next
/// position after everything that sorts no later than it.
fn track_order(events: &Vec<TimedCommand>) -> (order: Vec<usize>)
    ensures
        is_track_order(events@, order@),
{
    let mut order: Vec<usize> = Vec::new();
    let mut i: usize = 0;
    while i < events.len()
        invariant
            i <= events@.len(),
            order@.len() == i,
            forall|k: int| 0 <= k < order@.len() ==> #[trigger] order@[k] < i,
            forall|x: usize| x < i ==> order@.contains(x),
            forall|a: int, b: int|
                0 <= a < b < order@.len() ==> comes_before(events@, order@[a] as int, order@[b] as int),
        decreases events@.len() - i,
    {
        let e = events[i];
        let mut pos: usize = 0;
        while pos < order.len() && !key_lt_exec(e, events[order[pos]])
            invariant
                pos <= order@.len(),
                forall|k: int| 0 <= k < order@.len() ==> #[trigger] order@[k] < i,
                i < events@.len(),
                e == events@[i as int],
                forall|k: int| 0 <= k < pos ==> comes_before(events@, #[trigger] order@[k] as int, i as int),
            decreases order@.len() - pos,
        {
            pos = pos + 1;
        }
        let ghost before = order@;
        proof {
            assert forall|k: int| pos <= k < before.len() implies comes_before(
                events@,
                i as int,
                #[trigger] before[k] as int,
            ) by {
                assert(comes_before(events@, i as int, before[pos as int] as int));
                if k > pos {
                    assert(comes_before(events@, before[pos as int] as int, before[k] as int));
                }
            }
        }
        order.insert(pos, i);
        proof {
            assert(order@ == before.insert(pos as int, i));
            assert forall|x: usize| x < i + 1 implies order@.contains(x) by {
                if x == i {
                    assert(order@[pos as int] == x);
                } else {
                    assert(before.contains(x));
                    let k = choose|k: int| 0 <= k < before.len() && before[k] == x;
                    if k < pos {
                        assert(order@[k] == x);
                    } else {
                        assert(order@[k + 1] == x);
                    }
                }
            }
            assert forall|a: int, b: int| 0 <= a < b < order@.len() implies comes_before(
                events@,
                order@[a] as int,
                order@[b] as int,
            ) by {
                if a < pos && b < pos {
                    assert(order@[a] == before[a] && order@[b] == before[b]);
                } else if a < pos && b == pos {
                    assert(order@[a] == before[a]);
                } else if a < pos {
                    assert(order@[a] == before[a] && order@[b] == before[b - 1]);
                } else if a == pos {
                    assert(order@[b] == before[b - 1]);
                } else {
                    assert(order@[a] == before[a - 1] && order@[b] == before[b - 1]);
                }
            }
        }
        i = i + 1;
    }
    order
}

fn key_lt_exec(a: TimedCommand, b: TimedCommand) -> (r: bool)
    ensures
        r == key_lt(a, b),
{
    a.tick < b.tick || (a.tick == b.tick && a.is_off && !b.is_off)
}

/// In track order, ticks never go backwards and a note-off comes before
/// any note-on at the same tick; so each delta is exactly the tick gap,
/// and the running sum of deltas is each command's absolute tick.
pub proof fn lemma_track_ticks_never_go_backwards(events: Seq<TimedCommand>, order: Seq<usize>, n: nat)
    requires
        is_track_order(events, order),
        1 <= n <= order.len(),
    ensures
        forall|i: int, j: int|
            0 <= i < j < order.len() ==> events[order[i] as int].tick <= events[order[j] as int].tick,
        forall|i: int, j: int|
            0 <= i < j < order.len() && events[order[i] as int].tick == events[order[j] as int].tick
                && events[order[j] as int].is_off ==> events[order[i] as int].is_off,
        elapsed(encode(order.map_values(|k: usize| events[k as int])), n) == events[order[n - 1] as int].tick,
    decreases n,
{
    let ordered = order.map_values(|k: usize| events[k as int]);
    let track = encode(ordered);
    assert forall|i: int, j: int| 0 <= i < j < order.len() implies events[order[i] as int].tick
        <= events[order[j] as int].tick && (events[order[i] as int].tick
        == events[order[j] as int].tick && events[order[j] as int].is_off ==> events[order[i] as int].is_off) by {
        assert(comes_before(events, order[i] as int, order[j] as int));
    }
    assert(track.len() == order.len());
    assert(ordered[n - 1] == events[order[n - 1] as int]);
    if n > 1 {
        lemma_track_ticks_never_go_backwards(events, order, (n - 1) as nat);
        assert(ordered[n - 2] == events[order[n - 2] as int]);
        assert(events[order[n - 2] as int].tick <= events[order[n - 1] as int].tick);
        assert(track[n - 1].delta == ordered[n - 1].tick - ordered[n - 2].tick);
        assert(elapsed(track, n) == elapsed(track, (n - 1) as nat) + track[n - 1].delta);
    } else {
        assert(elapsed(track, 0) == 0);
        assert(elapsed(track, 1) == elapsed(track, 0) + track[0].delta);
    }
}

/// The keys of the note-ons among `cmds` on `channel`, in order.
pub open spec fn keys_turned_on(cmds: Seq<TimedCommand>, channel: u8) -> Seq<u8>
    decreases cmds.len(),
{
    if cmds.len() == 0 {
        Seq::<u8>::empty()
    } else {
        let rest = keys_turned_on(cmds.drop_last(), channel);
        let c = cmds.last();
        match c.command {
            MidiCommand::NoteOn { key, velocity } => if c.channel == channel {
                rest.push(key)
            } else {
                rest
            },
            _ => rest,
        }
    }
}

proof fn lemma_keys_turned_on_concat(a: Seq<TimedCommand>, b: Seq<TimedCommand>, channel: u8)
    ensures
        keys_turned_on(a + b, channel) == keys_turned_on(a, channel) + keys_turned_on(b, channel),
    decreases b.len(),
{
    if b.len() == 0 {
        assert(a + b =~= a);
        assert(keys_turned_on(b, channel) =~= Seq::<u8>::empty());
        assert(keys_turned_on(a, channel) + keys_turned_on(b, channel) =~= keys_turned_on(a, channel));
    } else {
        lemma_keys_turned_on_concat(a, b.drop_last(), channel);
        assert((a + b).drop_last() =~= a + b.drop_last());
        assert((a + b).last() == b.last());
        let ka = keys_turned_on(a, channel);
        let kb = keys_turned_on(b.drop_last(), channel);
        assert((ka + kb).push(b.last().command->NoteOn_key) =~= ka + kb.push(b.last().command->NoteOn_key));
    }
}

/// A change turns on, on the chord channel, exactly its chord's notes:
/// root, third and fifth, in that order (followed by its melody note when
/// the melody shares the channel); and it turns nothing on there without a
/// chord or melody note to start.
pub proof fn lemma_change_turns_on_its_chord(ch: MidiChannels, tick: u32, change: NoteChange)
    ensures
        keys_turned_on(change_commands(ch, tick, change), ch.chord_channel) == (match change.chord_on {
            Some(a) => seq![a[0] as u8, a[1] as u8, a[2] as u8],
            None => Seq::<u8>::empty(),
        }) + (match change.melody_on {
            Some(m) => if ch.melody_channel == ch.chord_channel {
                seq![m as u8]
            } else {
                Seq::<u8>::empty()
            },
            None => Seq::<u8>::empty(),
        }),
{
    let c = ch.chord_channel;
    let chord_offs = match change.chord_off {
        Some(a) => seq![
            note_command(tick, true, ch.chord_channel, a[0], 0),
            note_command(tick, true, ch.chord_channel, a[1], 0),
            note_command(tick, true, ch.chord_channel, a[2], 0),
        ],
        None => Seq::<TimedCommand>::empty(),
    };
    let melody_off = match change.melody_off {
        Some(m) => seq![note_command(tick, true, ch.melody_channel, m, 0)],
        None => Seq::<TimedCommand>::empty(),
    };
    let chord_ons = match change.chord_on {
        Some(a) => seq![
            note_command(tick, false, ch.chord_channel, a[0], ch.chord_velocity),
            note_command(tick, false, ch.chord_channel, a[1], ch.chord_velocity),
            note_command(tick, false, ch.chord_channel, a[2], ch.chord_velocity),
        ],
        None => Seq::<TimedCommand>::empty(),
    };
    let melody_on = match change.melody_on {
        Some(m) => seq![note_command(tick, false, ch.melody_channel, m, ch.melody_velocity)],
        None => Seq::<TimedCommand>::empty(),
    };
    assert(change_commands(ch, tick, change) == chord_offs + melody_off + chord_ons + melody_on);
    lemma_keys_turned_on_concat(chord_offs + melody_off + chord_ons, melody_on, c);
    lemma_keys_turned_on_concat(chord_offs + melody_off, chord_ons, c);
    lemma_keys_turned_on_concat(chord_offs, melody_off, c);
    assert(keys_turned_on(Seq::<TimedCommand>::empty(), c) =~= Seq::<u8>::empty());
    reveal_with_fuel(keys_turned_on, 4);
    assert(keys_turned_on(chord_offs, c) =~= Seq::<u8>::empty()) by {
        if chord_offs.len() > 0 {
            assert(chord_offs.drop_last().drop_last().drop_last() =~= Seq::<TimedCommand>::empty());
            assert(chord_offs.drop_last().drop_last() =~= seq![chord_offs[0]]);
        }
    }
    assert(keys_turned_on(melody_off, c) =~= Seq::<u8>::empty()) by {
        if melody_off.len() > 0 {
            assert(melody_off.drop_last() =~= Seq::<TimedCommand>::empty());
        }
    }
    if let Some(a) = change.chord_on {
        assert(chord_ons.drop_last().drop_last().drop_last() =~= Seq::<TimedCommand>::empty());
        assert(chord_ons.drop_last().drop_last() =~= seq![chord_ons[0]]);
        assert(chord_ons.drop_last() =~= seq![chord_ons[0], chord_ons[1]]);
        assert(keys_turned_on(chord_ons, c) =~= seq![a[0] as u8, a[1] as u8, a[2] as u8]);
    } else {
        assert(keys_turned_on(chord_ons, c) =~= Seq::<u8>::empty());
    }
    if melody_on.len() > 0 {
        assert(melody_on.drop_last() =~= Seq::<TimedCommand>::empty());
    }
    assert(keys_turned_on(melody_on, c) =~= (match change.melody_on {
        Some(m) => if ch.melody_channel == c {
            seq![m as u8]
        } else {
            Seq::<u8>::empty()
        },
        None => Seq::<u8>::empty(),
    }));
}

} // verus!
