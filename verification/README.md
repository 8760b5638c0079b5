# tonnetz

Walks on the neo-Riemannian Tonnetz (the 24 major and minor triads joined
by the P, L and R moves), melodies and rhythms derived from those walks,
and the voice-leading and MIDI bookkeeping that turns them into notes.
The library in `src/` is verified with Verus; `app/` is the command-line
player around it.

## Layout

- `src/harmony.rs`: pitch classes, triads, uniform triadic transformations
  (UTTs), with the group laws of P, L, R and UTT composition.
- `src/cycles.rs`: the hexatonic, octatonic and Hamiltonian cycles and
  their lengths.
- `src/walk.rs`: walk strategies (free, windowed tabu, Hamiltonian,
  cycle-confined) and the hexatonic/octatonic collections.
- `src/melody.rs`: melody strategies (moving voice, tight scale, rolling
  window, system-fixed scale).
- `src/fill.rs`: fill strategies placing extra melody notes inside a step.
- `src/rhythm.rs`: Bjorklund's algorithm, Euclidean rhythms and a tabu
  choice over a duration palette.
- `src/pipeline.rs`: a walk, a melody and a fill strategy driven together,
  one step at a time.
- `src/voice.rs`: MIDI note arithmetic and the voice-leading state machine.
- `src/midi.rs`: buffering note changes as MIDI commands and ordering them
  into a delta-encoded track.
- `src/strategies.rs`: strategies drawn at run time from one seeded source.
- `src/random.rs`: the calls into `rand`.
- `app/`: real-valued timing, the text, live-synth, WAV and MIDI-file
  renderers, and `main`.
