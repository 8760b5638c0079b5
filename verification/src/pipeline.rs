//! The pipeline's harmonic core: a walk strategy drives the triad
//! sequence, a melody strategy derives each step's notes, and a fill
//! strategy places extra melody notes inside each step's gap. Timing in
//! real units is left to the caller, keyed by each step's event index.

use vstd::prelude::*;

use crate::fill::{FillNote, FillStrategy, fill_wf, fills_in_order, frac_lt, sort_fills, stably_sorted};
use crate::harmony::{PitchClass, Triad, Utt};
use crate::melody::{MelodyStrategy, all_pcs_wf};
use crate::walk::{System, WalkStrategy, all_wf};

verus! {

/// One fully-resolved walk step: the triad just arrived at, the move that
/// produced it, the melody notes, the step's event index (for the rhythm),
/// and its fill notes in ascending order.
pub struct Step {
    pub triad: Triad,
    pub op: Utt,
    pub notes: Vec<PitchClass>,
    pub event_index: usize,
    pub fills: Vec<FillNote>,
}

/// Where, as a fraction `(numerator, denominator)` of a step's gap, the
/// step's own melody note gives way: at its first fill, or at the end of
/// the gap when it has none.
pub open spec fn spec_main_end(fills: Seq<FillNote>) -> (u128, u128) {
    if fills.len() == 0 {
        (1, 1)
    } else {
        (fills[0].numerator, fills[0].denominator)
    }
}

/// Where fill `i` gives way: at the next fill, or, after the last one, at
/// the end of the gap, where the next step begins.
pub open spec fn spec_fill_end(fills: Seq<FillNote>, i: int) -> (u128, u128) {
    if i + 1 < fills.len() {
        (fills[i + 1].numerator, fills[i + 1].denominator)
    } else {
        (1, 1)
    }
}

/// One event of a step, placed within the step's gap: it sounds from
/// `start` to `end`, each a fraction `(numerator, denominator)` of the gap.
pub struct GapEvent {
    pub triad: Triad,
    pub op: Utt,
    pub notes: Vec<PitchClass>,
    pub start: (u128, u128),
    pub end: (u128, u128),
    pub is_fill: bool,
}

impl Step {
    /// The step's events in the order they sound: first the step itself,
    /// whose melody note lasts until the first fill takes over (or the
    /// whole gap), then each fill, over the same triad and with the
    /// identity move, lasting until the next fill starts or the gap ends.
    pub fn events(self) -> (events: Vec<GapEvent>)
        requires
            fills_in_order(self.fills@),
        ensures
            events@.len() == self.fills@.len() + 1,
            events@[0].triad == self.triad,
            events@[0].op == self.op,
            events@[0].notes@ == self.notes@,
            events@[0].start == (0u128, 1u128),
            events@[0].end == spec_main_end(self.fills@),
            !events@[0].is_fill,
            forall|i: int|
                0 <= i < self.fills@.len() ==> {
                    let e = #[trigger] events@[i + 1];
                    &&& e.triad == self.triad
                    &&& e.op == Utt::spec_identity()
                    &&& e.notes@ == seq![self.fills@[i].pitch]
                    &&& e.start == (self.fills@[i].numerator, self.fills@[i].denominator)
                    &&& e.end == spec_fill_end(self.fills@, i)
                    &&& e.is_fill
                },
    {
        let Step { triad, op, notes, event_index: _, fills } = self;
        let main_end = if fills.len() == 0 {
            (1, 1)
        } else {
            (fills[0].numerator, fills[0].denominator)
        };
        let mut events: Vec<GapEvent> = Vec::new();
        events.push(GapEvent { triad, op, notes, start: (0, 1), end: main_end, is_fill: false });
        let mut i: usize = 0;
        while i < fills.len()
            invariant
                i <= fills@.len(),
                fills@ == self.fills@,
                triad == self.triad,
                events@.len() == i + 1,
                events@[0].triad == self.triad,
                events@[0].op == self.op,
                events@[0].notes@ == self.notes@,
                events@[0].start == (0u128, 1u128),
                events@[0].end == spec_main_end(self.fills@),
                !events@[0].is_fill,
                forall|k: int|
                    0 <= k < i ==> {
                        let e = #[trigger] events@[k + 1];
                        &&& e.triad == self.triad
                        &&& e.op == Utt::spec_identity()
                        &&& e.notes@ == seq![self.fills@[k].pitch]
                        &&& e.start == (self.fills@[k].numerator, self.fills@[k].denominator)
                        &&& e.end == spec_fill_end(self.fills@, k)
                        &&& e.is_fill
                    },
            decreases fills@.len() - i,
        {
            let fill = fills[i];
            let end = if i < fills.len() - 1 {
                (fills[i + 1].numerator, fills[i + 1].denominator)
            } else {
                (1, 1)
            };
            let mut notes: Vec<PitchClass> = Vec::new();
            notes.push(fill.pitch);
            assert(notes@ =~= seq![fill.pitch]);
            events.push(GapEvent {
                triad,
                op: Utt::IDENTITY(),
                notes,
                start: (fill.numerator, fill.denominator),
                end,
                is_fill: true,
            });
            i = i + 1;
        }
        events
    }
}

/// Each event of a step lasts a positive part of the gap, the first starts
/// where the gap starts, each of the others starts where the one before it
/// ends, and the last ends where the gap ends: together they tile the gap.
pub proof fn lemma_step_events_tile_the_gap(fills: Seq<FillNote>)
    requires
        fills_in_order(fills),
    ensures
        0 < spec_main_end(fills).0 <= spec_main_end(fills).1,
        fills.len() > 0 ==> spec_main_end(fills) == (fills[0].numerator, fills[0].denominator),
        forall|i: int|
            0 <= i < fills.len() ==> {
                let end = #[trigger] spec_fill_end(fills, i);
                &&& fills[i].numerator * end.1 <= end.0 * fills[i].denominator
                &&& end.0 <= end.1
                &&& i + 1 < fills.len() ==> end == (fills[i + 1].numerator, fills[i + 1].denominator)
            },
        spec_fill_end(fills, fills.len() - 1) == (1u128, 1u128),
        fills.len() == 0 ==> spec_main_end(fills) == (1u128, 1u128),
{
    assert forall|i: int| 0 <= i < fills.len() implies {
        let end = #[trigger] spec_fill_end(fills, i);
        &&& fills[i].numerator * end.1 <= end.0 * fills[i].denominator
        &&& end.0 <= end.1
    } by {
        let a = fills[i];
        assert(fill_wf(a));
        if i + 1 < fills.len() {
            let b = fills[i + 1];
            assert(fill_wf(b));
            assert(!frac_lt(b, a));
        } else {
            assert(a.numerator * 1 < 1 * a.denominator);
        }
    }
    if fills.len() > 0 {
        assert(fill_wf(fills[0]));
    }
}

/// `melody` once told the walk's system, when there is one.
pub open spec fn told_system<M: MelodyStrategy>(melody: M, system: Option<System>) -> M {
    match system {
        Some(s) => melody.with_system(s),
        None => melody,
    }
}

/// Drives a `WalkStrategy`, `MelodyStrategy` and `FillStrategy` together
/// into a stream of `Step`s, starting from a seed triad.
pub struct Pipeline<W, M, F> {
    walk: W,
    melody: M,
    fill: F,
    triad: Triad,
    history: Vec<Triad>,
    event_index: usize,
}

impl<W: WalkStrategy, M: MelodyStrategy, F: FillStrategy> Pipeline<W, M, F> {
    /// Every triad visited so far, the seed first.
    pub closed spec fn history(&self) -> Seq<Triad> {
        self.history@
    }

    pub closed spec fn spec_current(&self) -> Triad {
        self.triad
    }

    pub closed spec fn event_index(&self) -> nat {
        self.event_index as nat
    }

    pub closed spec fn walk(&self) -> W {
        self.walk
    }

    pub closed spec fn melody(&self) -> M {
        self.melody
    }

    pub closed spec fn fill(&self) -> F {
        self.fill
    }

    /// The history is well formed, ends at the current triad, and holds
    /// one triad per step taken plus the seed.
    pub open spec fn wf(&self) -> bool {
        &&& all_wf(self.history())
        &&& self.history().len() == self.event_index() + 1
        &&& self.history().last() == self.spec_current()
    }

    pub fn new(walk: W, melody: M, fill: F, start: Triad) -> (p: Self)
        requires
            start.wf(),
        ensures
            p.wf(),
            p.history() == seq![start],
            p.spec_current() == start,
            p.event_index() == 0,
            p.walk() == walk,
            p.melody() == melody,
            p.fill() == fill,
    {
        let mut history: Vec<Triad> = Vec::new();
        history.push(start);
        Pipeline { walk, melody, fill, triad: start, history, event_index: 0 }
    }

    /// The triad this pipeline is currently sitting on.
    pub fn current(&self) -> (t: Triad)
        ensures
            t == self.spec_current(),
    {
        self.triad
    }

    /// Takes one walk step: the walk's move from the current triad; then,
    /// when the walk is in a system, that system told to the melody; the
    /// melody's notes for the move; and the fill strategy's fills for the
    /// new triad, sorted by fraction.
    pub fn next_step(&mut self) -> (step: Step)
        requires
            old(self).wf(),
            old(self).event_index() < usize::MAX,
        ensures
            old(self).walk().spec_next(
                old(self).spec_current(),
                old(self).history(),
                final(self).walk(),
                (step.triad, step.op),
            ),
            told_system(old(self).melody(), final(self).walk().spec_current_system()).spec_notes(
                old(self).spec_current(),
                step.triad,
                step.op,
                old(self).history(),
                final(self).melody(),
                step.notes@,
            ),
            exists|raw: Seq<FillNote>|
                old(self).fill().spec_fills(step.triad, final(self).fill(), raw) && stably_sorted(
                    raw,
                    step.fills@,
                ),
            final(self).wf(),
            step.triad == step.op.spec_apply(old(self).spec_current()),
            step.event_index == old(self).event_index(),
            final(self).event_index() == old(self).event_index() + 1,
            final(self).history() == old(self).history().push(step.triad),
            final(self).spec_current() == step.triad,
            all_pcs_wf(step.notes@),
            fills_in_order(step.fills@),
    {
        let prev = self.triad;
        let (next, op) = self.walk.next(prev, self.history.as_slice());
        if let Some(system) = self.walk.current_system() {
            self.melody.set_system(system);
        }
        let notes = self.melody.notes(prev, next, op, self.history.as_slice());
        let event_index = self.event_index;
        self.history.push(next);
        self.triad = next;
        self.event_index = self.event_index + 1;
        let raw = self.fill.fills(next);
        let ghost raw_fills = raw@;
        let fills = sort_fills(raw);
        proof {
            assert forall|i: int| 0 <= i < self.history@.len() implies (#[trigger] self.history@[i]).wf() by {
                if i < self.history@.len() - 1 {
                    assert(self.history@[i] == old(self).history()[i]);
                }
            }
        }
        let step = Step { triad: next, op, notes, event_index, fills };
        assert(old(self).fill().spec_fills(step.triad, self.fill(), raw_fills) && stably_sorted(raw_fills, step.fills@));
        step
    }
}

} // verus!
