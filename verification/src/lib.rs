//! Neo-Riemannian harmony: pitch classes, triads and uniform triadic
//! transformations, the walks, melodies and rhythms built on them, the
//! voice-leading state machine that turns a walk into MIDI notes, and
//! the MIDI track those notes are written to.

pub mod cycles;
pub mod fill;
pub mod harmony;
pub mod melody;
pub mod midi;
pub mod pipeline;
pub mod random;
pub mod rhythm;
pub mod strategies;
pub mod voice;
pub mod walk;

pub use fill::{ArpeggioFill, FillNote, FillStrategy, NoFill};
pub use harmony::{Mode, PitchClass, Sign, Triad, Utt, op_name};
pub use melody::{AnyMelody, MelodyStrategy, MovingVoice, RollingWindowScale, SystemFixedScale, TightScale};
pub use midi::{MidiChannels, MidiCommand, MidiEventBuffer, TimedCommand, TrackCommand};
pub use pipeline::{GapEvent, Pipeline, Step};
pub use rhythm::{Euclidean, WindowedDurations, bjorklund};
pub use strategies::{
    AnyWalk, DURATION_PALETTE_LEN, RhythmDraw, random_melody, random_rhythm, random_walk, rng_from_seed,
};
pub use voice::{NoteChange, VoiceTracker, nearest_midi_note, triad_midi_notes};
pub use walk::{
    CycleConfinedWalk, FreeWalk, HamiltonianCycleWalk, PLR, System, WalkStrategy, WindowedTabuWalk,
};
