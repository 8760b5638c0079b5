//! MIDI-note math and the voice-leading state machine shared by every
//! rendering backend: which MIDI notes turn off and on as a walk advances.

use vstd::prelude::*;

use crate::harmony::{Mode, PitchClass, Triad, third_size};

verus! {

/// MIDI notes for a triad's root, third and fifth in close position above
/// `root_midi`.
pub open spec fn spec_triad_midi_notes(triad: Triad, root_midi: int) -> Seq<int> {
    seq![root_midi, root_midi + third_size(triad.mode), root_midi + 7]
}

/// MIDI note number for a triad's root, third, and fifth in close
/// position, given the root's own MIDI note number. Always adds upward,
/// so it never wraps an octave.
pub fn triad_midi_notes(triad: Triad, root_midi: i32) -> (notes: [i32; 3])
    requires
        root_midi <= i32::MAX - 7,
    ensures
        notes@.map_values(|n: i32| n as int) == spec_triad_midi_notes(triad, root_midi as int),
{
    let third: i32 = match triad.mode {
        Mode::Major => 4,
        Mode::Minor => 3,
    };
    let notes = [root_midi, root_midi + third, root_midi + 7];
    assert(notes@.map_values(|n: i32| n as int) =~= spec_triad_midi_notes(triad, root_midi as int));
    notes
}

/// The three octave candidates of pitch class `pc` around `reference`
/// (its octave's start, then an octave below and above) can be computed
/// in `i32`.
pub open spec fn nearest_fits(reference: int, pc: PitchClass) -> bool {
    let base = reference - reference % 12;
    &&& i32::MIN <= base
    &&& i32::MIN <= base + pc.0 - 12
    &&& base + pc.0 + 12 <= i32::MAX
}

/// Whether `nearest_midi_note(reference, pc)` can be computed.
fn nearest_fits_exec(reference: i32, pc: PitchClass) -> (b: bool)
    requires
        pc.wf(),
    ensures
        b == nearest_fits(reference as int, pc),
{
    let r = match reference.checked_rem_euclid(12) {
        Some(r) => r,
        None => 0,
    };
    let base = reference as i64 - r as i64;
    let min = i32::MIN as i64;
    let max = i32::MAX as i64;
    min <= base && min <= base + pc.0 as i64 - 12 && base + pc.0 as i64 + 12 <= max
}

pub open spec fn abs(x: int) -> int {
    if x < 0 {
        -x
    } else {
        x
    }
}

/// The MIDI note of pitch class `pc` nearest to `reference`, ties broken
/// downward: the first closest of the occurrences an octave below, in,
/// and an octave above `reference`'s own octave.
pub open spec fn spec_nearest_midi_note(reference: int, pc: PitchClass) -> int {
    let same = reference - reference % 12 + pc.0;
    let below = same - 12;
    let above = same + 12;
    if abs(below - reference) <= abs(same - reference) && abs(below - reference) <= abs(above
        - reference) {
        below
    } else if abs(same - reference) <= abs(above - reference) {
        same
    } else {
        above
    }
}

fn abs_diff(a: i32, b: i32) -> (d: i32)
    requires
        -0x4000_0000 <= a - b <= 0x4000_0000,
    ensures
        d == abs(a - b),
{
    if a < b {
        b - a
    } else {
        a - b
    }
}

/// The MIDI note matching `pitch_class` that's closest to
/// `reference_midi` (ties break downward), so a melody moving by step
/// stays a continuous line rather than leaping octaves.
pub fn nearest_midi_note(reference_midi: i32, pitch_class: PitchClass) -> (note: i32)
    requires
        nearest_fits(reference_midi as int, pitch_class),
        pitch_class.wf(),
    ensures
        note == spec_nearest_midi_note(reference_midi as int, pitch_class),
{
    let r = match reference_midi.checked_rem_euclid(12) {
        Some(r) => r,
        None => 0,
    };
    let same_octave = reference_midi - r + pitch_class.0 as i32;
    let below = same_octave - 12;
    let above = same_octave + 12;
    let d_below = abs_diff(below, reference_midi);
    let d_same = abs_diff(same_octave, reference_midi);
    let d_above = abs_diff(above, reference_midi);
    if d_below <= d_same && d_below <= d_above {
        below
    } else if d_same <= d_above {
        same_octave
    } else {
        above
    }
}

/// `nearest_midi_note` has the asked-for pitch class, lies within a
/// tritone of the reference, and no other note of that pitch class is
/// closer; an equally close one is always higher (ties break downward).
pub proof fn lemma_nearest_midi_note_is_nearest(reference: int, pc: PitchClass, m: int)
    requires
        pc.wf(),
        m % 12 == pc.0,
    ensures
        spec_nearest_midi_note(reference, pc) % 12 == pc.0,
        abs(spec_nearest_midi_note(reference, pc) - reference) <= 6,
        abs(m - reference) >= abs(spec_nearest_midi_note(reference, pc) - reference),
        abs(m - reference) == abs(spec_nearest_midi_note(reference, pc) - reference) ==> m
            >= spec_nearest_midi_note(reference, pc),
{
    let r = reference % 12;
    let base = reference - r;
    assert(base % 12 == 0) by {
        vstd::arithmetic::div_mod::lemma_fundamental_div_mod(reference, 12);
        vstd::arithmetic::div_mod::lemma_mod_multiples_basic(reference / 12, 12);
    }
    let same = base + pc.0;
    let q = (m - same) / 12;
    assert(m == same + 12 * q) by {
        vstd::arithmetic::div_mod::lemma_fundamental_div_mod(m - same, 12);
        vstd::arithmetic::div_mod::lemma_sub_mod_noop(m, same, 12);
        vstd::arithmetic::div_mod::lemma_add_mod_noop(base, pc.0 as int, 12);
    }
    let n = spec_nearest_midi_note(reference, pc);
    assert(n % 12 == pc.0) by {
        vstd::arithmetic::div_mod::lemma_add_mod_noop(base, pc.0 as int, 12);
        vstd::arithmetic::div_mod::lemma_add_mod_noop(base + pc.0, -12, 12);
        vstd::arithmetic::div_mod::lemma_add_mod_noop(base + pc.0, 12, 12);
    }
    if q <= -2 {
        assert(m <= same - 24);
    } else if q >= 2 {
        assert(m >= same + 24);
    }
}

/// Which MIDI notes should turn off and which should turn on for one step.
#[derive(Clone, Copy, Debug, Eq, PartialEq)]
pub struct NoteChange {
    pub chord_off: Option<[i32; 3]>,
    pub chord_on: Option<[i32; 3]>,
    pub melody_off: Option<i32>,
    pub melody_on: Option<i32>,
}

/// A chord as the sequence of its MIDI notes.
pub open spec fn chord_view(c: Option<[i32; 3]>) -> Option<Seq<int>> {
    match c {
        Some(a) => Some(a@.map_values(|n: i32| n as int)),
        None => None,
    }
}

pub open spec fn melody_view(m: Option<i32>) -> Option<int> {
    match m {
        Some(n) => Some(n as int),
        None => None,
    }
}

/// A `NoteChange` as plain sequences and integers.
pub struct ChangeView {
    pub chord_off: Option<Seq<int>>,
    pub chord_on: Option<Seq<int>>,
    pub melody_off: Option<int>,
    pub melody_on: Option<int>,
}

impl View for NoteChange {
    type V = ChangeView;

    open spec fn view(&self) -> ChangeView {
        ChangeView {
            chord_off: chord_view(self.chord_off),
            chord_on: chord_view(self.chord_on),
            melody_off: melody_view(self.melody_off),
            melody_on: melody_view(self.melody_on),
        }
    }
}

/// The voice tracker's state: its registers and what is sounding.
pub struct VoiceState {
    pub chord_root_midi: int,
    pub melody_start_midi: int,
    pub chord: Option<Seq<int>>,
    pub melody: Option<int>,
}

impl VoiceState {
    /// The note the next melody note is chosen nearest to.
    pub open spec fn anchor(self) -> int {
        match self.melody {
            Some(m) => m,
            None => self.melody_start_midi,
        }
    }

    /// `start(triad)`'s notes fit in `i32`.
    pub open spec fn start_fits(self, triad: Triad) -> bool {
        &&& triad.wf()
        &&& chord_root_in_range(self.chord_root_midi)
        &&& nearest_fits(self.melody_start_midi, triad.root)
    }

    /// `advance(_, notes)`'s notes fit in `i32`.
    pub open spec fn advance_fits(self, notes: Seq<PitchClass>) -> bool {
        &&& chord_root_in_range(self.chord_root_midi)
        &&& notes.len() > 0 ==> notes[0].wf() && nearest_fits(self.anchor(), notes[0])
    }

    /// `advance_fill(pitch)`'s note fits in `i32`.
    pub open spec fn fill_fits(self, pitch: PitchClass) -> bool {
        pitch.wf() && nearest_fits(self.anchor(), pitch)
    }

    /// Starting on a seed triad: its chord, and its root nearest the
    /// melody's starting note.
    pub open spec fn start(self, triad: Triad) -> (VoiceState, ChangeView) {
        let chord = spec_triad_midi_notes(triad, self.chord_root_midi);
        let midi = spec_nearest_midi_note(self.melody_start_midi, triad.root);
        (
            VoiceState { chord: Some(chord), melody: Some(midi), ..self },
            ChangeView { chord_off: None, chord_on: Some(chord), melody_off: None, melody_on: Some(midi) },
        )
    }

    /// Advancing to a walk step: the old chord and melody note stop, the
    /// new chord starts, and the step's first note (if any) starts nearest
    /// the anchor.
    pub open spec fn advance(self, triad: Triad, notes: Seq<PitchClass>) -> (VoiceState, ChangeView) {
        let chord = spec_triad_midi_notes(triad, self.chord_root_midi);
        let melody_on = if notes.len() > 0 {
            Some(spec_nearest_midi_note(self.anchor(), notes[0]))
        } else {
            None
        };
        (
            VoiceState { chord: Some(chord), melody: melody_on, ..self },
            ChangeView {
                chord_off: self.chord,
                chord_on: Some(chord),
                melody_off: self.melody,
                melody_on,
            },
        )
    }

    /// A fill note: only the melody moves.
    pub open spec fn advance_fill(self, pitch: PitchClass) -> (VoiceState, ChangeView) {
        let midi = spec_nearest_midi_note(self.anchor(), pitch);
        (
            VoiceState { melody: Some(midi), ..self },
            ChangeView { chord_off: None, chord_on: None, melody_off: self.melody, melody_on: Some(midi) },
        )
    }

    /// Stopping whatever is sounding.
    pub open spec fn finish(self) -> (VoiceState, ChangeView) {
        (
            VoiceState { chord: None, melody: None, ..self },
            ChangeView { chord_off: self.chord, chord_on: None, melody_off: self.melody, melody_on: None },
        )
    }
}

/// Tracks the currently-sounding chord and melody voice across a walk,
/// translating each step into a `NoteChange`.
pub struct VoiceTracker {
    chord_root_midi: i32,
    melody_start_midi: i32,
    current_chord: Option<[i32; 3]>,
    current_melody: Option<i32>,
}

impl View for VoiceTracker {
    type V = VoiceState;

    closed spec fn view(&self) -> VoiceState {
        VoiceState {
            chord_root_midi: self.chord_root_midi as int,
            melody_start_midi: self.melody_start_midi as int,
            chord: chord_view(self.current_chord),
            melody: melody_view(self.current_melody),
        }
    }
}

/// The chord register leaves room for a fifth above the root.
pub open spec fn chord_root_in_range(root: int) -> bool {
    i32::MIN <= root <= i32::MAX - 7
}

impl VoiceTracker {
    pub fn new(chord_root_midi: i32, melody_start_midi: i32) -> (t: VoiceTracker)
        ensures
            t@ == (VoiceState {
                chord_root_midi: chord_root_midi as int,
                melody_start_midi: melody_start_midi as int,
                chord: None,
                melody: None,
            }),
    {
        VoiceTracker { chord_root_midi, melody_start_midi, current_chord: None, current_melody: None }
    }

    /// Whether `start(triad)` can compute its notes in `i32`.
    pub fn can_start(&self, triad: Triad) -> (b: bool)
        ensures
            b == self@.start_fits(triad),
    {
        triad.root.0 < 12 && self.chord_root_midi <= i32::MAX - 7 && nearest_fits_exec(
            self.melody_start_midi,
            triad.root,
        )
    }

    /// Whether `advance(_, notes)` can compute its notes in `i32`.
    pub fn can_advance(&self, notes: &[PitchClass]) -> (b: bool)
        ensures
            b == self@.advance_fits(notes@),
    {
        self.chord_root_midi <= i32::MAX - 7 && (notes.len() == 0 || (notes[0].0 < 12
            && nearest_fits_exec(self.anchor_midi(), notes[0])))
    }

    /// Whether `advance_fill(pitch)` can compute its note in `i32`.
    pub fn can_advance_fill(&self, pitch: PitchClass) -> (b: bool)
        ensures
            b == self@.fill_fits(pitch),
    {
        pitch.0 < 12 && nearest_fits_exec(self.anchor_midi(), pitch)
    }

    fn anchor_midi(&self) -> (a: i32)
        ensures
            a == self@.anchor(),
    {
        match self.current_melody {
            Some(m) => m,
            None => self.melody_start_midi,
        }
    }

    /// Starts a seed triad with no preceding event, anchoring the melody
    /// voice on its root.
    pub fn start(&mut self, triad: Triad) -> (change: NoteChange)
        requires
            old(self)@.start_fits(triad),
        ensures
            (final(self)@, change@) == old(self)@.start(triad),
    {
        let chord = triad_midi_notes(triad, self.chord_root_midi);
        self.current_chord = Some(chord);
        let midi = nearest_midi_note(self.melody_start_midi, triad.root);
        self.current_melody = Some(midi);
        NoteChange { chord_off: None, chord_on: Some(chord), melody_off: None, melody_on: Some(midi) }
    }

    /// Stops whatever chord/melody note was last sounding and starts the
    /// step's chord and first melody note, anchored on the previous one.
    pub fn advance(&mut self, triad: Triad, notes: &[PitchClass]) -> (change: NoteChange)
        requires
            old(self)@.advance_fits(notes@),
        ensures
            (final(self)@, change@) == old(self)@.advance(triad, notes@),
    {
        let chord_off = self.current_chord;
        let melody_off = self.current_melody;
        let chord = triad_midi_notes(triad, self.chord_root_midi);
        self.current_chord = Some(chord);
        let anchor = match self.current_melody {
            Some(m) => m,
            None => self.melody_start_midi,
        };
        let melody_on = if notes.len() > 0 {
            Some(nearest_midi_note(anchor, notes[0]))
        } else {
            None
        };
        self.current_melody = melody_on;
        NoteChange { chord_off, chord_on: Some(chord), melody_off, melody_on }
    }

    /// For a fill note: only the melody voice moves, anchored on the
    /// previous melody note; the chord is left as it is.
    pub fn advance_fill(&mut self, pitch: PitchClass) -> (change: NoteChange)
        requires
            old(self)@.fill_fits(pitch),
        ensures
            (final(self)@, change@) == old(self)@.advance_fill(pitch),
    {
        let melody_off = self.current_melody;
        let anchor = match self.current_melody {
            Some(m) => m,
            None => self.melody_start_midi,
        };
        let midi = nearest_midi_note(anchor, pitch);
        self.current_melody = Some(midi);
        NoteChange { chord_off: None, chord_on: None, melody_off, melody_on: Some(midi) }
    }

    /// Stops whatever was last sounding, with nothing new to start.
    pub fn finish(&mut self) -> (change: NoteChange)
        ensures
            (final(self)@, change@) == old(self)@.finish(),
    {
        let chord_off = self.current_chord;
        let melody_off = self.current_melody;
        self.current_chord = None;
        self.current_melody = None;
        NoteChange { chord_off, chord_on: None, melody_off, melody_on: None }
    }
}

/// Every change turns off exactly what the change before it left
/// sounding: after a start, advance, or fill, the next advance's offs are
/// the sounding chord and melody note, and finishing twice turns nothing
/// off the second time.
pub proof fn lemma_offs_follow_ons(s: VoiceState, t1: Triad, t2: Triad, notes: Seq<PitchClass>, p: PitchClass)
    ensures
        s.start(t1).0.advance(t2, notes).1.chord_off == s.start(t1).1.chord_on,
        s.start(t1).0.advance(t2, notes).1.melody_off == s.start(t1).1.melody_on,
        s.advance(t1, notes).0.advance_fill(p).1.melody_off == s.advance(t1, notes).1.melody_on,
        s.advance_fill(p).0.advance_fill(p).1.melody_off == s.advance_fill(p).1.melody_on,
        s.finish().0.finish().1.chord_off == None::<Seq<int>>,
        s.finish().0.finish().1.melody_off == None::<int>,
        s.start(t1).0.finish().1.chord_off == s.start(t1).1.chord_on,
        s.start(t1).0.finish().1.melody_off == s.start(t1).1.melody_on,
{
}

/// A fill never touches the chord: a run of fills chains each melody
/// note off the one before, and the chord still sounding afterwards is the
/// one sounding before them.
pub proof fn lemma_fill_leaves_the_chord(s: VoiceState, p: PitchClass, q: PitchClass)
    ensures
        s.advance_fill(p).0.chord == s.chord,
        s.advance_fill(p).1.chord_off == None::<Seq<int>>,
        s.advance_fill(p).1.chord_on == None::<Seq<int>>,
        s.advance_fill(p).1.melody_off == s.melody,
        s.advance_fill(p).1.melody_on == Some(spec_nearest_midi_note(s.anchor(), p)),
        s.advance_fill(p).0.advance_fill(q).1.melody_off == s.advance_fill(p).1.melody_on,
        s.advance_fill(p).0.advance_fill(q).0.finish().1.chord_off == s.chord,
{
}

/// A fresh tracker has nothing sounding: finishing it stops nothing, and
/// its first fill note starts nearest the melody's starting note with
/// nothing to stop.
pub proof fn lemma_fresh_tracker_has_nothing_sounding(chord_root_midi: int, melody_start_midi: int, p: PitchClass)
    ensures
        ({
            let s = VoiceState { chord_root_midi, melody_start_midi, chord: None, melody: None };
            &&& s.finish().1 == (ChangeView { chord_off: None, chord_on: None, melody_off: None, melody_on: None })
            &&& s.advance_fill(p).1.melody_off == None::<int>
            &&& s.advance_fill(p).1.melody_on == Some(spec_nearest_midi_note(melody_start_midi, p))
        }),
{
}

/// A triad's chord is its three tones in close position from the given
/// root note: the root itself, then the third and the fifth strictly
/// above it within the octave, each the MIDI note of the triad's own
/// pitch class there.
pub proof fn lemma_chord_sounds_the_triad(t: Triad, root_midi: int)
    requires
        t.wf(),
    ensures
        spec_triad_midi_notes(t, root_midi).len() == 3,
        spec_triad_midi_notes(t, root_midi)[0] == root_midi,
        root_midi < spec_triad_midi_notes(t, root_midi)[1] < spec_triad_midi_notes(t, root_midi)[2]
            < root_midi + 12,
        forall|k: int|
            0 <= k < 3 ==> (t.root.0 + spec_triad_midi_notes(t, root_midi)[k] - root_midi) % 12
                == (#[trigger] t.spec_pitch_classes()[k]).0,
{
    let n = spec_triad_midi_notes(t, root_midi);
    let pcs = t.spec_pitch_classes();
    assert forall|k: int| 0 <= k < 3 implies (t.root.0 + n[k] - root_midi) % 12 == (
    #[trigger] pcs[k]).0 by {
        if k == 0 {
            assert(pcs[0] == t.root);
        } else if k == 1 {
            assert(pcs[1] == t.root.shifted(third_size(t.mode)));
        } else {
            assert(pcs[2] == t.root.shifted(7));
        }
    }
}

/// The melody moves from the note that is sounding: while one sounds it is
/// the anchor; and each melody note after the first is the note of its
/// pitch class nearest the melody note started just before it, through
/// fills and walk steps alike.
pub proof fn lemma_melody_moves_from_the_sounding_note(
    s: VoiceState,
    t: Triad,
    u: Triad,
    notes: Seq<PitchClass>,
    p: PitchClass,
    q: PitchClass,
)
    requires
        notes.len() > 0,
    ensures
        s.melody matches Some(m) ==> s.anchor() == m,
        s.melody is None ==> s.anchor() == s.melody_start_midi,
        ({
            let first = s.advance_fill(p);
            let second = first.0.advance_fill(q);
            &&& first.1.melody_on matches Some(m1)
            &&& second.1.melody_on == Some(spec_nearest_midi_note(first.1.melody_on->0, q))
            &&& second.1.melody_off == first.1.melody_on
        }),
        ({
            let started = s.start(t);
            let step = started.0.advance(u, notes);
            &&& step.1.melody_on == Some(spec_nearest_midi_note(started.1.melody_on->0, notes[0]))
            &&& step.0.advance_fill(q).1.melody_on == Some(spec_nearest_midi_note(step.1.melody_on->0, q))
        }),
{
}

} // verus!
