//! Melody strategies: which pitch classes sound over each walk step.

use vstd::prelude::*;

use crate::harmony::{PitchClass, Triad, Utt};
use crate::walk::{System, all_wf, is_plr};

verus! {

/// Every pitch class of the sequence is well formed.
pub open spec fn all_pcs_wf(s: Seq<PitchClass>) -> bool {
    forall|i: int| 0 <= i < s.len() ==> (#[trigger] s[i]).wf()
}

/// Derives melody notes from a walk step. `history` holds every triad
/// visited before `next`.
pub trait MelodyStrategy: Sized {
    /// Whether a strategy in this state may answer the step from `prev` to
    /// `next` by `op`, after `history`, with `notes`, and be left in state
    /// `after`.
    spec fn spec_notes(
        &self,
        prev: Triad,
        next: Triad,
        op: Utt,
        history: Seq<Triad>,
        after: Self,
        notes: Seq<PitchClass>,
    ) -> bool;

    /// This strategy once told that the walk is in `system`.
    spec fn with_system(&self, system: System) -> Self;

    fn notes(&mut self, prev: Triad, next: Triad, op: Utt, history: &[Triad]) -> (notes: Vec<
        PitchClass,
    >)
        requires
            prev.wf(),
            next.wf(),
            all_wf(history@),
        ensures
            all_pcs_wf(notes@),
            old(self).spec_notes(prev, next, op, history@, *final(self), notes@),
    ;

    /// Told the walk's current system after each step, when it has one.
    fn set_system(&mut self, system: System)
        ensures
            *final(self) == old(self).with_system(system),
    ;
}

/// The tones of `next` that `prev` does not hold, in root, third, fifth
/// order.
pub open spec fn new_tones(prev: Triad, next: Triad) -> Seq<PitchClass> {
    let old_pcs = prev.spec_pitch_classes();
    let new_pcs = next.spec_pitch_classes();
    let s0 = if old_pcs.contains(new_pcs[0]) {
        Seq::<PitchClass>::empty()
    } else {
        seq![new_pcs[0]]
    };
    let s1 = if old_pcs.contains(new_pcs[1]) {
        s0
    } else {
        s0.push(new_pcs[1])
    };
    if old_pcs.contains(new_pcs[2]) {
        s1
    } else {
        s1.push(new_pcs[2])
    }
}

fn holds(pcs: &[PitchClass; 3], p: PitchClass) -> (b: bool)
    ensures
        b == pcs@.contains(p),
{
    let b = pcs[0] == p || pcs[1] == p || pcs[2] == p;
    proof {
        if pcs@.contains(p) {
            let k = choose|k: int| 0 <= k < 3 && pcs@[k] == p;
            assert(k == 0 || k == 1 || k == 2);
        }
    }
    if b {
        if pcs[0] == p {
            assert(pcs@[0] == p);
        } else if pcs[1] == p {
            assert(pcs@[1] == p);
        } else {
            assert(pcs@[2] == p);
        }
    }
    b
}

/// The single voice that every P/L/R step moves by step.
pub struct MovingVoice;

impl MelodyStrategy for MovingVoice {
    /// The tones of `next` that `prev` lacks.
    open spec fn spec_notes(
        &self,
        prev: Triad,
        next: Triad,
        op: Utt,
        history: Seq<Triad>,
        after: Self,
        notes: Seq<PitchClass>,
    ) -> bool {
        notes == new_tones(prev, next) && after == *self
    }

    open spec fn with_system(&self, system: System) -> Self {
        *self
    }

    fn notes(&mut self, prev: Triad, next: Triad, _op: Utt, _history: &[Triad]) -> (notes: Vec<
        PitchClass,
    >) {
        let prev_pcs = prev.pitch_classes();
        let next_pcs = next.pitch_classes();
        let mut notes: Vec<PitchClass> = Vec::new();
        if !holds(&prev_pcs, next_pcs[0]) {
            notes.push(next_pcs[0]);
        }
        if !holds(&prev_pcs, next_pcs[1]) {
            notes.push(next_pcs[1]);
        }
        if !holds(&prev_pcs, next_pcs[2]) {
            notes.push(next_pcs[2]);
        }
        assert(notes@ =~= new_tones(prev, next));
        notes
    }

    fn set_system(&mut self, _system: System) {
    }
}

/// Every P, L or R step moves exactly one voice: the arrived-at triad has
/// exactly one tone the previous one lacks.
pub proof fn lemma_plr_moves_exactly_one_voice(t: Triad, op: Utt)
    requires
        t.wf(),
        is_plr(op),
    ensures
        new_tones(t, op.spec_apply(t)).len() == 1,
{
    let a = t.spec_pitch_classes();
    let b = op.spec_apply(t).spec_pitch_classes();
    assert(a.contains(a[0]) && a.contains(a[1]) && a.contains(a[2]));
    if op == Utt::spec_p() {
        if t.mode == crate::harmony::Mode::Major {
            assert(a.contains(b[0]) && a.contains(b[2]) && !a.contains(b[1]));
        } else {
            assert(a.contains(b[0]) && a.contains(b[2]) && !a.contains(b[1]));
        }
    } else if op == Utt::spec_l() {
        if t.mode == crate::harmony::Mode::Major {
            assert(b[0] == a[1] && b[1] == a[2] && !a.contains(b[2]));
        } else {
            assert(b[1] == a[0] && b[2] == a[1] && !a.contains(b[0]));
        }
    } else {
        if t.mode == crate::harmony::Mode::Major {
            assert(b[1] == a[0] && b[2] == a[1] && !a.contains(b[0]));
        } else {
            assert(b[0] == a[1] && b[1] == a[2] && !a.contains(b[2]));
        }
    }
}

/// The current triad's 3 notes only: an arpeggio locked to the chord just
/// arrived at.
pub struct TightScale;

impl MelodyStrategy for TightScale {
    /// The arrived-at triad's tones: root, third, fifth.
    open spec fn spec_notes(
        &self,
        prev: Triad,
        next: Triad,
        op: Utt,
        history: Seq<Triad>,
        after: Self,
        notes: Seq<PitchClass>,
    ) -> bool {
        notes == next.spec_pitch_classes() && after == *self
    }

    open spec fn with_system(&self, system: System) -> Self {
        *self
    }

    fn notes(&mut self, _prev: Triad, next: Triad, _op: Utt, _history: &[Triad]) -> (notes: Vec<
        PitchClass,
    >) {
        let pcs = next.pitch_classes();
        let mut notes: Vec<PitchClass> = Vec::new();
        notes.push(pcs[0]);
        notes.push(pcs[1]);
        notes.push(pcs[2]);
        assert(notes@ =~= next.spec_pitch_classes());
        notes
    }

    fn set_system(&mut self, _system: System) {
    }
}

/// The triads a rolling window of size `window` looks back over, before
/// the one just arrived at: the last `window - 1` of `history`.
pub open spec fn window_triads(history: Seq<Triad>, window: nat) -> Seq<Triad> {
    let back = if window == 0 {
        0
    } else {
        window - 1
    };
    let start = if history.len() >= back {
        history.len() - back
    } else {
        0
    };
    history.subrange(start as int, history.len() as int)
}

/// A rolling window of size `window` looks back over the `window - 1`
/// most recent triads of the history (all of them when fewer), oldest
/// first.
pub proof fn lemma_window_looks_back_window_minus_one(history: Seq<Triad>, window: nat)
    requires
        window >= 1,
    ensures
        window_triads(history, window).len() == if history.len() < window - 1 {
            history.len() as int
        } else {
            window - 1
        },
        forall|i: int|
            0 <= i < window_triads(history, window).len() ==> #[trigger] window_triads(history, window)[i]
                == history[history.len() - window_triads(history, window).len() + i],
{
}

/// Whether `p` is a tone of `next` or of one of `triads`.
pub open spec fn sounds_in(triads: Seq<Triad>, next: Triad, p: PitchClass) -> bool {
    ||| next.spec_pitch_classes().contains(p)
    ||| exists|i: int| 0 <= i < triads.len() && (#[trigger] triads[i]).spec_pitch_classes().contains(p)
}

/// The pitch classes are in strictly ascending order.
pub open spec fn strictly_ascending(s: Seq<PitchClass>) -> bool {
    forall|i: int, j: int| 0 <= i < j < s.len() ==> s[i].0 < s[j].0
}

/// Union of pitch classes across the last `window` triads (including the
/// one just arrived at), ascending. `window == 1` reduces to `TightScale`.
pub struct RollingWindowScale {
    pub window: usize,
}

fn mark_tones(present: &mut Vec<bool>, t: Triad)
    requires
        old(present)@.len() == 12,
        t.wf(),
    ensures
        final(present)@.len() == 12,
        forall|k: int|
            0 <= k < 12 ==> (#[trigger] final(present)@[k] <==> (old(present)@[k]
                || t.spec_pitch_classes().contains(PitchClass(k as u8)))),
{
    let pcs = t.pitch_classes();
    present.set(pcs[0].0 as usize, true);
    present.set(pcs[1].0 as usize, true);
    present.set(pcs[2].0 as usize, true);
    assert forall|k: int| 0 <= k < 12 implies (#[trigger] present@[k] <==> (old(present)@[k]
        || t.spec_pitch_classes().contains(PitchClass(k as u8)))) by {
        if t.spec_pitch_classes().contains(PitchClass(k as u8)) {
            let j = choose|j: int| 0 <= j < 3 && t.spec_pitch_classes()[j] == PitchClass(k as u8);
            assert(pcs@[j].0 == k);
        }
    }
}

impl MelodyStrategy for RollingWindowScale {
    /// Every tone of `next` or of the window's earlier triads, once each,
    /// ascending.
    open spec fn spec_notes(
        &self,
        prev: Triad,
        next: Triad,
        op: Utt,
        history: Seq<Triad>,
        after: Self,
        notes: Seq<PitchClass>,
    ) -> bool {
        &&& strictly_ascending(notes)
        &&& forall|p: PitchClass|
            p.wf() ==> (notes.contains(p) <==> sounds_in(window_triads(history, self.window as nat), next, p))
        &&& after == *self
    }

    open spec fn with_system(&self, system: System) -> Self {
        *self
    }

    fn notes(&mut self, _prev: Triad, next: Triad, _op: Utt, history: &[Triad]) -> (notes: Vec<
        PitchClass,
    >) {
        let back = self.window.saturating_sub(1);
        let start = history.len().saturating_sub(back);
        let ghost triads = window_triads(history@, self.window as nat);
        assert(triads == history@.subrange(start as int, history@.len() as int));
        let mut present: Vec<bool> = Vec::new();
        let mut k: usize = 0;
        while k < 12
            invariant
                k <= 12,
                present@.len() == k,
                forall|j: int| 0 <= j < k ==> !present@[j],
            decreases 12 - k,
        {
            present.push(false);
            k = k + 1;
        }
        let mut i = start;
        while i < history.len()
            invariant
                start <= i <= history@.len(),
                all_wf(history@),
                triads == history@.subrange(start as int, history@.len() as int),
                present@.len() == 12,
                forall|j: int|
                    0 <= j < 12 ==> (#[trigger] present@[j] <==> exists|m: int|
                        start <= m < i && (#[trigger] history@[m]).spec_pitch_classes().contains(
                            PitchClass(j as u8),
                        )),
            decreases history@.len() - i,
        {
            let ghost before = present@;
            mark_tones(&mut present, history[i]);
            assert forall|j: int| 0 <= j < 12 implies (#[trigger] present@[j] <==> exists|m: int|
                start <= m < i + 1 && (#[trigger] history@[m]).spec_pitch_classes().contains(
                    PitchClass(j as u8),
                )) by {
                if present@[j] && !before[j] {
                    assert(history@[i as int].spec_pitch_classes().contains(PitchClass(j as u8)));
                }
            }
            i = i + 1;
        }
        let ghost from_history = present@;
        mark_tones(&mut present, next);
        let mut notes: Vec<PitchClass> = Vec::new();
        let mut v: u8 = 0;
        while v < 12
            invariant
                v <= 12,
                present@.len() == 12,
                strictly_ascending(notes@),
                forall|j: int| 0 <= j < notes@.len() ==> notes@[j].0 < v,
                forall|p: PitchClass|
                    p.0 < v ==> (notes@.contains(p) <==> present@[p.0 as int]),
            decreases 12 - v,
        {
            let ghost before = notes@;
            if present[v as usize] {
                notes.push(PitchClass(v));
            }
            assert forall|p: PitchClass| p.0 < v + 1 implies (notes@.contains(p) <==> present@[p.0 as int]) by {
                if p.0 < v {
                    if before.contains(p) {
                        let j = choose|j: int| 0 <= j < before.len() && before[j] == p;
                        assert(notes@[j] == p);
                    }
                    if notes@.contains(p) {
                        let j = choose|j: int| 0 <= j < notes@.len() && notes@[j] == p;
                        if j < before.len() {
                            assert(before[j] == p);
                        }
                    }
                } else {
                    if notes@.contains(p) {
                        let j = choose|j: int| 0 <= j < notes@.len() && notes@[j] == p;
                        assert(j == before.len());
                    }
                    if present@[p.0 as int] {
                        assert(notes@[before.len() as int] == p);
                    }
                }
            }
            v = v + 1;
        }
        assert forall|p: PitchClass| p.wf() implies (notes@.contains(p) <==> sounds_in(
            triads,
            next,
            p,
        )) by {
            let j = p.0 as int;
            assert(PitchClass(j as u8) == p);
            if sounds_in(triads, next, p) && !next.spec_pitch_classes().contains(p) {
                let m = choose|m: int|
                    0 <= m < triads.len() && (#[trigger] triads[m]).spec_pitch_classes().contains(p);
                assert(triads[m] == history@[m + start]);
            }
            if present@[j] && !next.spec_pitch_classes().contains(p) {
                let m = choose|m: int|
                    start <= m < history@.len() && (#[trigger] history@[m]).spec_pitch_classes().contains(
                        PitchClass(j as u8),
                    );
                assert(triads[m - start] == history@[m]);
            }
        }
        notes
    }

    fn set_system(&mut self, _system: System) {
    }
}

/// A rolling window of size 1 (or 0) sounds exactly the arrived-at
/// triad's tones, like `TightScale`.
pub proof fn lemma_window_of_one_is_the_tight_scale(history: Seq<Triad>, window: nat, next: Triad, p: PitchClass)
    requires
        window <= 1,
    ensures
        sounds_in(window_triads(history, window), next, p) == next.spec_pitch_classes().contains(p),
{
    assert(window_triads(history, window).len() == 0);
}

/// The current hexatonic/octatonic collection, as pushed by `set_system`;
/// before the first push, the arrived-at triad's own 3 notes.
pub struct SystemFixedScale {
    system: Option<System>,
}

impl SystemFixedScale {
    pub closed spec fn system(&self) -> Option<System> {
        self.system
    }

    pub fn new() -> (s: SystemFixedScale)
        ensures
            s.system() == None::<System>,
    {
        SystemFixedScale { system: None }
    }
}

impl MelodyStrategy for SystemFixedScale {
    /// The collection of the system last pushed, or the arrived-at triad's
    /// tones before any push.
    open spec fn spec_notes(
        &self,
        prev: Triad,
        next: Triad,
        op: Utt,
        history: Seq<Triad>,
        after: Self,
        notes: Seq<PitchClass>,
    ) -> bool {
        &&& notes == match self.system() {
            Some(system) => system.collection(next),
            None => next.spec_pitch_classes(),
        }
        &&& after == *self
    }

    closed spec fn with_system(&self, system: System) -> Self {
        SystemFixedScale { system: Some(system) }
    }

    fn notes(&mut self, _prev: Triad, next: Triad, _op: Utt, _history: &[Triad]) -> (notes: Vec<
        PitchClass,
    >) {
        match self.system {
            Some(system) => {
                let notes = system.pitch_classes(next);
                assert forall|i: int| 0 <= i < notes@.len() implies (#[trigger] notes@[i]).wf() by {
                }
                notes
            },
            None => {
                let pcs = next.pitch_classes();
                let mut notes: Vec<PitchClass> = Vec::new();
                notes.push(pcs[0]);
                notes.push(pcs[1]);
                notes.push(pcs[2]);
                assert(notes@ =~= next.spec_pitch_classes());
                notes
            },
        }
    }

    fn set_system(&mut self, system: System) {
        self.system = Some(system);
    }
}

/// Pushing a system into a system-fixed scale makes it that scale's
/// system.
pub proof fn lemma_pushed_system_is_kept(scale: SystemFixedScale, system: System)
    ensures
        scale.with_system(system).system() == Some(system),
{
}

/// Any one of the library's melody strategies, chosen at run time.
pub enum AnyMelody {
    Moving(MovingVoice),
    Tight(TightScale),
    Rolling(RollingWindowScale),
    SystemFixed(SystemFixedScale),
}

impl MelodyStrategy for AnyMelody {
    /// The chosen strategy's own notes, the strategy staying the same kind.
    open spec fn spec_notes(
        &self,
        prev: Triad,
        next: Triad,
        op: Utt,
        history: Seq<Triad>,
        after: Self,
        notes: Seq<PitchClass>,
    ) -> bool {
        match (*self, after) {
            (AnyMelody::Moving(m), AnyMelody::Moving(a)) => m.spec_notes(prev, next, op, history, a, notes),
            (AnyMelody::Tight(m), AnyMelody::Tight(a)) => m.spec_notes(prev, next, op, history, a, notes),
            (AnyMelody::Rolling(m), AnyMelody::Rolling(a)) => m.spec_notes(prev, next, op, history, a, notes),
            (AnyMelody::SystemFixed(m), AnyMelody::SystemFixed(a)) => m.spec_notes(
                prev,
                next,
                op,
                history,
                a,
                notes,
            ),
            _ => false,
        }
    }

    /// Only a system-fixed scale takes the system in.
    open spec fn with_system(&self, system: System) -> Self {
        match *self {
            AnyMelody::SystemFixed(m) => AnyMelody::SystemFixed(m.with_system(system)),
            _ => *self,
        }
    }

    fn notes(&mut self, prev: Triad, next: Triad, op: Utt, history: &[Triad]) -> (notes: Vec<
        PitchClass,
    >) {
        match self {
            AnyMelody::Moving(m) => m.notes(prev, next, op, history),
            AnyMelody::Tight(m) => m.notes(prev, next, op, history),
            AnyMelody::Rolling(m) => m.notes(prev, next, op, history),
            AnyMelody::SystemFixed(m) => m.notes(prev, next, op, history),
        }
    }

    fn set_system(&mut self, system: System) {
        if let AnyMelody::SystemFixed(m) = self {
            m.set_system(system);
        }
    }
}

} // verus!
