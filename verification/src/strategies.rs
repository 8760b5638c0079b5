//! Walk, melody and rhythm strategies chosen at run time from one random
//! source. That one seed then reproduces a whole run rests on `rand`'s
//! generators being deterministic, which nothing here proves.

use rand::rngs::StdRng;
use vstd::prelude::*;

use crate::harmony::{Triad, Utt};
use crate::melody::{AnyMelody, MovingVoice, RollingWindowScale, SystemFixedScale, TightScale};
use crate::random::{random_below, random_ratio, random_u64, seeded_generator, seeded_rng};
use crate::rhythm::{Euclidean, WindowedDurations};
use crate::walk::{CycleConfinedWalk, FreeWalk, HamiltonianCycleWalk, System, WalkStrategy, WindowedTabuWalk};

verus! {

/// Any one of the library's walk strategies, chosen at run time.
pub enum AnyWalk {
    Free(FreeWalk),
    Tabu(WindowedTabuWalk),
    Hamiltonian(HamiltonianCycleWalk),
    Confined(CycleConfinedWalk),
}

impl WalkStrategy for AnyWalk {
    /// The chosen walk's own step, the walk staying the same kind.
    open spec fn spec_next(&self, current: Triad, history: Seq<Triad>, after: Self, r: (Triad, Utt)) -> bool {
        match (*self, after) {
            (AnyWalk::Free(w), AnyWalk::Free(a)) => w.spec_next(current, history, a, r),
            (AnyWalk::Tabu(w), AnyWalk::Tabu(a)) => w.spec_next(current, history, a, r),
            (AnyWalk::Hamiltonian(w), AnyWalk::Hamiltonian(a)) => w.spec_next(current, history, a, r),
            (AnyWalk::Confined(w), AnyWalk::Confined(a)) => w.spec_next(current, history, a, r),
            _ => false,
        }
    }

    open spec fn spec_current_system(&self) -> Option<System> {
        match *self {
            AnyWalk::Confined(w) => w.spec_current_system(),
            _ => None,
        }
    }

    fn next(&mut self, current: Triad, history: &[Triad]) -> (r: (Triad, Utt)) {
        match self {
            AnyWalk::Free(w) => w.next(current, history),
            AnyWalk::Tabu(w) => w.next(current, history),
            AnyWalk::Hamiltonian(w) => w.next(current, history),
            AnyWalk::Confined(w) => w.next(current, history),
        }
    }

    fn current_system(&self) -> (s: Option<System>) {
        match self {
            AnyWalk::Confined(w) => w.current_system(),
            _ => None,
        }
    }
}

/// The generator a run draws its strategies from, seeded from `seed`.
pub fn rng_from_seed(seed: u64) -> (rng: StdRng)
    ensures
        rng == seeded_generator(seed),
{
    seeded_rng(seed)
}

/// A fresh generator seeded from `rng`, so each strategy that needs its own
/// generator gets one without correlating with later draws from `rng`.
fn sub_rng(rng: &mut StdRng) -> (sub: StdRng)
    ensures
        exists|seed: u64| sub == seeded_generator(seed),
{
    let seed = random_u64(rng);
    seeded_rng(seed)
}

/// Draws a walk: its kind (free, tabu, Hamiltonian, cycle-confined), then
/// its parameters: a tabu window of 2 to 5; or a system (even odds) and an
/// escape chance of 0.05 to 0.35, counted in millionths.
pub fn random_walk(rng: &mut StdRng) -> (walk: AnyWalk)
    ensures
        walk is Tabu ==> 2 <= walk->Tabu_0.window() <= 5,
        walk is Confined ==> {
            &&& walk->Confined_0.escape_chance().1 == 1_000_000
            &&& 50_000 <= walk->Confined_0.escape_chance().0 <= 350_000
            &&& walk->Confined_0.last_op() == None::<Utt>
        },
        walk is Hamiltonian ==> walk->Hamiltonian_0.step() == 0,
        walk is Free ==> walk->Free_0.last_op() == None::<Utt>,
{
    let kind = random_below(rng, 4);
    walk_of_kind(kind, rng)
}

/// The walk of the given kind (0 free, 1 tabu, 2 Hamiltonian, 3
/// cycle-confined), with its parameters then drawn from `rng`: a tabu
/// window of 2 to 5; or a system (even odds) and an escape chance of 0.05 to
/// 0.35, in millionths. A free, tabu or confined walk gets a generator of its own,
/// seeded from `rng`.
pub fn walk_of_kind(kind: usize, rng: &mut StdRng) -> (walk: AnyWalk)
    requires
        kind < 4,
    ensures
        kind == 0 <==> walk is Free,
        kind == 1 <==> walk is Tabu,
        kind == 2 <==> walk is Hamiltonian,
        kind == 3 <==> walk is Confined,
        walk is Free ==> {
            &&& walk->Free_0.last_op() == None::<Utt>
            &&& exists|seed: u64| walk->Free_0.generator() == seeded_generator(seed)
        },
        walk is Tabu ==> 2 <= walk->Tabu_0.window() <= 5,
        walk is Hamiltonian ==> walk->Hamiltonian_0.step() == 0,
        walk is Confined ==> {
            &&& walk->Confined_0.escape_chance().1 == 1_000_000
            &&& 50_000 <= walk->Confined_0.escape_chance().0 <= 350_000
            &&& walk->Confined_0.last_op() == None::<Utt>
        },
{
    if kind == 0 {
        AnyWalk::Free(FreeWalk::with_rng(sub_rng(rng)))
    } else if kind == 1 {
        let window = 2 + random_below(rng, 4);
        AnyWalk::Tabu(WindowedTabuWalk::with_rng(window, sub_rng(rng)))
    } else if kind == 2 {
        AnyWalk::Hamiltonian(HamiltonianCycleWalk::new())
    } else {
        let system = if random_ratio(rng, 1, 2) {
            System::Hexatonic
        } else {
            System::Octatonic
        };
        let escape = 50_000 + random_below(rng, 300_001) as u32;
        AnyWalk::Confined(CycleConfinedWalk::with_rng(system, escape, 1_000_000, sub_rng(rng)))
    }
}

/// Draws a melody strategy for `walk`: moving voice, tight scale, or a
/// rolling window of 2 to 5; a system-fixed scale is in the pool only
/// when the walk is cycle-confined, since only that walk has a system.
pub fn random_melody(rng: &mut StdRng, walk: &AnyWalk) -> (melody: AnyMelody)
    ensures
        melody is SystemFixed ==> *walk is Confined,
        melody is SystemFixed ==> melody->SystemFixed_0.system() == None::<System>,
        melody is Rolling ==> 2 <= melody->Rolling_0.window <= 5,
{
    let pool: usize = match walk {
        AnyWalk::Confined(_) => 4,
        _ => 3,
    };
    let kind = random_below(rng, pool);
    melody_of_kind(kind, rng)
}

/// The melody strategy of the given kind (0 moving voice, 1 tight scale,
/// 2 rolling window, 3 system-fixed scale), a rolling window's size then
/// drawn from `rng`, from 2 to 5.
pub fn melody_of_kind(kind: usize, rng: &mut StdRng) -> (melody: AnyMelody)
    requires
        kind < 4,
    ensures
        kind == 0 <==> melody is Moving,
        kind == 1 <==> melody is Tight,
        kind == 2 <==> melody is Rolling,
        kind == 3 <==> melody is SystemFixed,
        melody is Rolling ==> 2 <= melody->Rolling_0.window <= 5,
        melody is SystemFixed ==> melody->SystemFixed_0.system() == None::<System>,
{
    if kind == 0 {
        AnyMelody::Moving(MovingVoice)
    } else if kind == 1 {
        AnyMelody::Tight(TightScale)
    } else if kind == 2 {
        let window = 2 + random_below(rng, 4);
        AnyMelody::Rolling(RollingWindowScale { window })
    } else {
        AnyMelody::SystemFixed(SystemFixedScale::new())
    }
}

/// A rhythm drawn at run time: a fixed pulse, whose real-valued beat the
/// caller draws next; a Euclidean rhythm; or a tabu choice over a palette
/// of `DURATION_PALETTE_LEN` durations, whose values the caller supplies.
pub enum RhythmDraw {
    FixedPulse,
    Euclid(Euclidean),
    Windowed(WindowedDurations),
}

/// How many durations a drawn windowed rhythm chooses among.
pub const DURATION_PALETTE_LEN: usize = 4;

/// Draws a rhythm: its kind (fixed pulse, Euclidean, windowed durations),
/// then its parameters: 5 to 12 steps with 1 to `steps` pulses; or a
/// window of 2 to 4, with a generator of its own.
pub fn random_rhythm(rng: &mut StdRng) -> (rhythm: RhythmDraw)
    ensures
        rhythm is Euclid ==> {
            &&& rhythm->Euclid_0.wf()
            &&& 5 <= rhythm->Euclid_0.steps() <= 12
            &&& 1 <= rhythm->Euclid_0.onsets().len() <= rhythm->Euclid_0.steps()
        },
        rhythm is Windowed ==> {
            &&& 2 <= rhythm->Windowed_0.window() <= 4
            &&& rhythm->Windowed_0.palette_len() == DURATION_PALETTE_LEN
            &&& rhythm->Windowed_0.chosen() == Seq::<usize>::empty()
        },
{
    let kind = random_below(rng, 3);
    rhythm_of_kind(kind, rng)
}

/// The rhythm of the given kind (0 fixed pulse, 1 Euclidean, 2 windowed
/// durations), its parameters then drawn from `rng`: 5 to 12 steps with 1
/// to `steps` pulses; or a window of 2 to 4, with a generator of its own.
pub fn rhythm_of_kind(kind: usize, rng: &mut StdRng) -> (rhythm: RhythmDraw)
    requires
        kind < 3,
    ensures
        kind == 0 <==> rhythm is FixedPulse,
        kind == 1 <==> rhythm is Euclid,
        kind == 2 <==> rhythm is Windowed,
        rhythm is Euclid ==> {
            &&& rhythm->Euclid_0.wf()
            &&& 5 <= rhythm->Euclid_0.steps() <= 12
            &&& 1 <= rhythm->Euclid_0.onsets().len() <= rhythm->Euclid_0.steps()
        },
        rhythm is Windowed ==> {
            &&& 2 <= rhythm->Windowed_0.window() <= 4
            &&& rhythm->Windowed_0.palette_len() == DURATION_PALETTE_LEN
            &&& rhythm->Windowed_0.chosen() == Seq::<usize>::empty()
        },
{
    if kind == 0 {
        RhythmDraw::FixedPulse
    } else if kind == 1 {
        let steps = 5 + random_below(rng, 8);
        let pulses = 1 + random_below(rng, steps);
        RhythmDraw::Euclid(Euclidean::new(pulses, steps))
    } else {
        let window = 2 + random_below(rng, 3);
        RhythmDraw::Windowed(WindowedDurations::with_rng(window, DURATION_PALETTE_LEN, sub_rng(rng)))
    }
}

} // verus!
