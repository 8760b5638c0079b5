//! Walk strategies over the 24-triad graph: each step applies one of the
//! three neo-Riemannian moves to the current triad.

use rand::rngs::StdRng;
use vstd::prelude::*;

use crate::cycles::alternate;
use crate::harmony::{PitchClass, Triad, Utt, pc};
use crate::random::{fresh_rng, random_below, random_ratio};

verus! {

/// One of the three neo-Riemannian moves P, L, R.
pub open spec fn is_plr(u: Utt) -> bool {
    u == Utt::spec_p() || u == Utt::spec_l() || u == Utt::spec_r()
}

/// P, L, R in the fixed order used for iteration.
pub open spec fn spec_plr() -> Seq<Utt> {
    seq![Utt::spec_p(), Utt::spec_l(), Utt::spec_r()]
}

/// The three neo-Riemannian moves, in a fixed order used for iteration.
#[allow(non_snake_case)]
pub fn PLR() -> (ops: [Utt; 3])
    ensures
        ops@ == spec_plr(),
{
    let ops = [Utt::P(), Utt::L(), Utt::R()];
    assert(ops@ =~= spec_plr());
    ops
}

/// Every triad of the sequence is well formed.
pub open spec fn all_wf(s: Seq<Triad>) -> bool {
    forall|i: int| 0 <= i < s.len() ==> (#[trigger] s[i]).wf()
}

/// Something that walks the triad graph one step at a time, returning the
/// next triad together with the move that reached it.
pub trait WalkStrategy: Sized {
    /// Whether a walk in this state may take the step `r` from `current`
    /// after visiting `history`, and be left in state `after`.
    spec fn spec_next(&self, current: Triad, history: Seq<Triad>, after: Self, r: (Triad, Utt)) -> bool;

    /// The hexatonic/octatonic system a walk in this state is confined
    /// to, if any.
    spec fn spec_current_system(&self) -> Option<System>;

    fn next(&mut self, current: Triad, history: &[Triad]) -> (r: (Triad, Utt))
        requires
            current.wf(),
        ensures
            r.0.wf(),
            r.0 == r.1.spec_apply(current),
            old(self).spec_next(current, history@, *final(self), r),
    ;

    /// The hexatonic/octatonic system this walk is confined to, if any.
    fn current_system(&self) -> (s: Option<System>)
        ensures
            s == self.spec_current_system(),
    ;
}

/// The moves a free walk may take after `last`: every move but `last`.
pub open spec fn free_candidates(last: Option<Utt>) -> Seq<Utt> {
    if last == Some(Utt::spec_p()) {
        seq![Utt::spec_l(), Utt::spec_r()]
    } else if last == Some(Utt::spec_l()) {
        seq![Utt::spec_p(), Utt::spec_r()]
    } else if last == Some(Utt::spec_r()) {
        seq![Utt::spec_p(), Utt::spec_l()]
    } else {
        spec_plr()
    }
}

/// Random choice among {P, L, R}, forbidding the move just used (since
/// P/L/R are involutions, that forbids an immediate return).
pub struct FreeWalk {
    rng: StdRng,
    last_op: Option<Utt>,
}

impl FreeWalk {
    /// The move this walk took last, if any.
    pub closed spec fn last_op(&self) -> Option<Utt> {
        self.last_op
    }

    /// The generator this walk draws its moves from.
    pub closed spec fn generator(&self) -> StdRng {
        self.rng
    }

    pub fn new() -> (w: FreeWalk)
        ensures
            w.last_op() == None::<Utt>,
    {
        FreeWalk { rng: fresh_rng(), last_op: None }
    }

    /// A walk drawing from the given generator (for reproducible runs).
    pub fn with_rng(rng: StdRng) -> (w: FreeWalk)
        ensures
            w.last_op() == None::<Utt>,
            w.generator() == rng,
    {
        FreeWalk { rng, last_op: None }
    }

    fn pick(&mut self, exclude: Option<Utt>) -> (op: Utt)
        ensures
            free_candidates(exclude).contains(op),
    {
        let p = Utt::P();
        let l = Utt::L();
        let r = Utt::R();
        let candidates: Vec<Utt> = match exclude {
            Some(x) => {
                if x == p {
                    vec![l, r]
                } else if x == l {
                    vec![p, r]
                } else if x == r {
                    vec![p, l]
                } else {
                    vec![p, l, r]
                }
            },
            None => vec![p, l, r],
        };
        assert(candidates@ =~= free_candidates(exclude));
        let i = random_below(&mut self.rng, candidates.len());
        let op = candidates[i];
        assert(free_candidates(exclude)[i as int] == op);
        op
    }
}

impl Default for FreeWalk {
    fn default() -> (w: FreeWalk)
        ensures
            w.last_op() == None::<Utt>,
    {
        FreeWalk::new()
    }
}

impl WalkStrategy for FreeWalk {
    /// Any move but the last one, which becomes the new last move.
    open spec fn spec_next(&self, current: Triad, history: Seq<Triad>, after: Self, r: (Triad, Utt)) -> bool {
        &&& free_candidates(self.last_op()).contains(r.1)
        &&& is_plr(r.1)
        &&& Some(r.1) != self.last_op()
        &&& after.last_op() == Some(r.1)
    }

    open spec fn spec_current_system(&self) -> Option<System> {
        None
    }

    fn next(&mut self, current: Triad, _history: &[Triad]) -> (r: (Triad, Utt)) {
        let last_op = self.last_op;
        let op = self.pick(last_op);
        self.last_op = Some(op);
        (op.apply(current), op)
    }

    fn current_system(&self) -> (s: Option<System>) {
        None
    }
}

/// The last `window` triads of `history` (all of it when shorter).
pub open spec fn tabu_window(history: Seq<Triad>, window: nat) -> Seq<Triad> {
    let start = if history.len() >= window {
        history.len() - window
    } else {
        0
    };
    history.subrange(start as int, history.len() as int)
}

/// The moves from `current` whose target is not in `tabu`, in P, L, R order.
pub open spec fn legal_moves(current: Triad, tabu: Seq<Triad>) -> Seq<Utt> {
    let with_p = if tabu.contains(Utt::spec_p().spec_apply(current)) {
        Seq::<Utt>::empty()
    } else {
        seq![Utt::spec_p()]
    };
    let with_l = if tabu.contains(Utt::spec_l().spec_apply(current)) {
        with_p
    } else {
        with_p.push(Utt::spec_l())
    };
    if tabu.contains(Utt::spec_r().spec_apply(current)) {
        with_l
    } else {
        with_l.push(Utt::spec_r())
    }
}

/// The position of the last occurrence of `t` in `s`, or 0 when absent.
pub open spec fn last_seen(s: Seq<Triad>, t: Triad) -> int
    decreases s.len(),
{
    if s.len() == 0 {
        0
    } else if s.last() == t {
        s.len() - 1
    } else {
        last_seen(s.drop_last(), t)
    }
}

/// The first of P, L, R (in that order) whose target was seen least
/// recently in `tabu`.
pub open spec fn least_recent_move(current: Triad, tabu: Seq<Triad>) -> Utt {
    let kp = last_seen(tabu, Utt::spec_p().spec_apply(current));
    let kl = last_seen(tabu, Utt::spec_l().spec_apply(current));
    let kr = last_seen(tabu, Utt::spec_r().spec_apply(current));
    if kp <= kl && kp <= kr {
        Utt::spec_p()
    } else if kl <= kr {
        Utt::spec_l()
    } else {
        Utt::spec_r()
    }
}

/// Whether `t` occurs in `history[start..]`.
fn seen_since(history: &[Triad], start: usize, t: Triad) -> (b: bool)
    requires
        start <= history@.len(),
    ensures
        b == history@.subrange(start as int, history@.len() as int).contains(t),
{
    let ghost tabu = history@.subrange(start as int, history@.len() as int);
    let mut i = start;
    while i < history.len()
        invariant
            start <= i <= history@.len(),
            tabu == history@.subrange(start as int, history@.len() as int),
            forall|k: int| start <= k < i ==> history@[k] != t,
        decreases history@.len() - i,
    {
        if history[i] == t {
            assert(tabu[i - start] == t);
            return true;
        }
        i = i + 1;
    }
    assert forall|k: int| 0 <= k < tabu.len() implies tabu[k] != t by {
        assert(tabu[k] == history@[k + start]);
    }
    false
}

/// `last_seen` over `history[start..]`, counted from `start`.
fn last_seen_since(history: &[Triad], start: usize, t: Triad) -> (k: usize)
    requires
        start <= history@.len(),
    ensures
        k as int == last_seen(history@.subrange(start as int, history@.len() as int), t),
{
    let mut pos: usize = 0;
    let mut i = start;
    while i < history.len()
        invariant
            start <= i <= history@.len(),
            pos as int == last_seen(history@.subrange(start as int, i as int), t),
            pos <= i,
        decreases history@.len() - i,
    {
        let ghost before = history@.subrange(start as int, i as int);
        assert(history@.subrange(start as int, i + 1).drop_last() =~= before);
        if history[i] == t {
            pos = i - start;
        }
        i = i + 1;
    }
    pos
}

/// Forbid revisiting any of the last `window` triads; when every
/// neighbor is forbidden, relax to the least-recently-visited one.
pub struct WindowedTabuWalk {
    rng: StdRng,
    window: usize,
}

impl WindowedTabuWalk {
    pub closed spec fn window(&self) -> nat {
        self.window as nat
    }

    /// How many recent triads are tabu.
    pub fn window_len(&self) -> (w: usize)
        ensures
            w == self.window(),
    {
        self.window
    }

    pub fn new(window: usize) -> (w: WindowedTabuWalk)
        ensures
            w.window() == window,
    {
        WindowedTabuWalk { rng: fresh_rng(), window }
    }

    pub fn with_rng(window: usize, rng: StdRng) -> (w: WindowedTabuWalk)
        ensures
            w.window() == window,
    {
        WindowedTabuWalk { rng, window }
    }
}

impl WalkStrategy for WindowedTabuWalk {
    /// A move whose target is outside the tabu window when there is one,
    /// else the move to the least recently visited neighbor; the window
    /// stays as it is.
    open spec fn spec_next(&self, current: Triad, history: Seq<Triad>, after: Self, r: (Triad, Utt)) -> bool {
        let tabu = tabu_window(history, self.window());
        &&& is_plr(r.1)
        &&& legal_moves(current, tabu).len() > 0 ==> {
            &&& legal_moves(current, tabu).contains(r.1)
            &&& !tabu.contains(r.0)
        }
        &&& legal_moves(current, tabu).len() == 0 ==> r.1 == least_recent_move(current, tabu)
        &&& after.window() == self.window()
    }

    open spec fn spec_current_system(&self) -> Option<System> {
        None
    }

    fn next(&mut self, current: Triad, history: &[Triad]) -> (r: (Triad, Utt)) {
        let len = history.len();
        let start = len.saturating_sub(self.window);
        let ghost tabu = tabu_window(history@, self.window as nat);
        assert(tabu == history@.subrange(start as int, len as int));
        let p = Utt::P();
        let l = Utt::L();
        let r = Utt::R();
        let to_p = p.apply(current);
        let to_l = l.apply(current);
        let to_r = r.apply(current);
        let mut legal: Vec<Utt> = Vec::new();
        if !seen_since(history, start, to_p) {
            legal.push(p);
        }
        if !seen_since(history, start, to_l) {
            legal.push(l);
        }
        if !seen_since(history, start, to_r) {
            legal.push(r);
        }
        assert(legal@ =~= legal_moves(current, tabu));
        let op = if legal.len() == 0 {
            let kp = last_seen_since(history, start, to_p);
            let kl = last_seen_since(history, start, to_l);
            let kr = last_seen_since(history, start, to_r);
            if kp <= kl && kp <= kr {
                p
            } else if kl <= kr {
                l
            } else {
                r
            }
        } else {
            let i = random_below(&mut self.rng, legal.len());
            assert(legal@[i as int] == legal[i as int]);
            legal[i]
        };
        (op.apply(current), op)
    }

    fn current_system(&self) -> (s: Option<System>) {
        None
    }
}

/// With a window of 1 the only tabu triad is the current one, which no
/// move leads back to: every move is legal, so the walk behaves like a
/// free walk that never returns immediately.
pub proof fn lemma_window_of_one_forbids_only_immediate_return(current: Triad, history: Seq<Triad>)
    requires
        current.wf(),
        history.len() > 0,
        history.last() == current,
    ensures
        tabu_window(history, 1) == seq![current],
        legal_moves(current, tabu_window(history, 1)) == spec_plr(),
{
    let tabu = tabu_window(history, 1);
    assert(tabu =~= seq![current]);
    crate::harmony::lemma_plr_have_no_fixed_triad(current);
    assert(!tabu.contains(Utt::spec_p().spec_apply(current)));
    assert(!tabu.contains(Utt::spec_l().spec_apply(current)));
    assert(!tabu.contains(Utt::spec_r().spec_apply(current)));
    assert(legal_moves(current, tabu) =~= spec_plr());
}

/// The alternating R/L walk: visits all 24 triads with no repeats,
/// returning home at step 24.
pub struct HamiltonianCycleWalk {
    step: usize,
}

/// The move the alternating R/L walk takes at step `step`.
pub open spec fn hamiltonian_move(step: int) -> Utt {
    if step % 2 == 0 {
        Utt::spec_r()
    } else {
        Utt::spec_l()
    }
}

impl HamiltonianCycleWalk {
    /// How many steps this walk has taken (wrapping at `usize::MAX`,
    /// which keeps the R/L alternation intact).
    pub closed spec fn step(&self) -> nat {
        self.step as nat
    }

    pub fn new() -> (w: HamiltonianCycleWalk)
        ensures
            w.step() == 0,
    {
        HamiltonianCycleWalk { step: 0 }
    }
}

impl Default for HamiltonianCycleWalk {
    fn default() -> (w: HamiltonianCycleWalk)
        ensures
            w.step() == 0,
    {
        HamiltonianCycleWalk::new()
    }
}

impl WalkStrategy for HamiltonianCycleWalk {
    /// R on even steps, L on odd ones, counting the step.
    open spec fn spec_next(&self, current: Triad, history: Seq<Triad>, after: Self, r: (Triad, Utt)) -> bool {
        &&& r.1 == hamiltonian_move(self.step() as int)
        &&& after.step() == if self.step() == usize::MAX {
            0
        } else {
            self.step() + 1
        }
    }

    open spec fn spec_current_system(&self) -> Option<System> {
        None
    }

    fn next(&mut self, current: Triad, _history: &[Triad]) -> (r: (Triad, Utt)) {
        let op = if self.step % 2 == 0 {
            Utt::R()
        } else {
            Utt::L()
        };
        self.step = self.step.wrapping_add(1);
        (op.apply(current), op)
    }

    fn current_system(&self) -> (s: Option<System>) {
        None
    }
}

/// The alternating R/L walk's `k`-th step from `start` lands on the `k+1`-th
/// triad of the R/L alternation; with the 24-cycle law this makes the
/// walk visit all 24 triads and return home.
pub proof fn lemma_hamiltonian_walk_follows_the_alternation(start: Triad, k: nat)
    ensures
        hamiltonian_move(k as int).spec_apply(alternate(start, Utt::spec_r(), Utt::spec_l(), k))
            == alternate(start, Utt::spec_r(), Utt::spec_l(), k + 1),
{
}

/// One of the two named systems: hexatonic (alternating P, L) or octatonic
/// (alternating P, R).
#[derive(Clone, Copy, Debug, Eq, PartialEq, Structural)]
pub enum System {
    Hexatonic,
    Octatonic,
}

impl System {
    /// The system's two defining moves, P first.
    pub open spec fn spec_pair(self) -> Seq<Utt> {
        match self {
            System::Hexatonic => seq![Utt::spec_p(), Utt::spec_l()],
            System::Octatonic => seq![Utt::spec_p(), Utt::spec_r()],
        }
    }

    /// The move that is not one of the system's pair.
    pub open spec fn spec_third_op(self) -> Utt {
        match self {
            System::Hexatonic => Utt::spec_r(),
            System::Octatonic => Utt::spec_l(),
        }
    }

    pub open spec fn toggled(self) -> System {
        match self {
            System::Hexatonic => System::Octatonic,
            System::Octatonic => System::Hexatonic,
        }
    }

    /// The root residue that identifies which collection a triad is in.
    pub open spec fn modulus(self) -> int {
        match self {
            System::Hexatonic => 4,
            System::Octatonic => 3,
        }
    }

    /// The collection's pitch classes above its lowest member.
    pub open spec fn offsets(self) -> Seq<int> {
        match self {
            System::Hexatonic => seq![0, 3, 4, 7, 8, 11],
            System::Octatonic => seq![0, 1, 3, 4, 6, 7, 9, 10],
        }
    }

    /// The hexatonic or octatonic collection `triad` belongs to.
    pub open spec fn collection(self, triad: Triad) -> Seq<PitchClass> {
        let base = (triad.root.0 as int) % self.modulus();
        self.offsets().map_values(|o: int| pc(base + o))
    }

    fn pair(self) -> (ops: [Utt; 2])
        ensures
            ops@ == self.spec_pair(),
    {
        let ops = match self {
            System::Hexatonic => [Utt::P(), Utt::L()],
            System::Octatonic => [Utt::P(), Utt::R()],
        };
        assert(ops@ =~= self.spec_pair());
        ops
    }

    fn third_op(self) -> (op: Utt)
        ensures
            op == self.spec_third_op(),
    {
        match self {
            System::Hexatonic => Utt::R(),
            System::Octatonic => Utt::L(),
        }
    }

    fn toggle(self) -> (s: System)
        ensures
            s == self.toggled(),
    {
        match self {
            System::Hexatonic => System::Octatonic,
            System::Octatonic => System::Hexatonic,
        }
    }

    /// The fixed 6-note (hexatonic) or 8-note (octatonic) pitch-class
    /// collection `triad` belongs to, determined by its root alone.
    pub fn pitch_classes(self, triad: Triad) -> (pcs: Vec<PitchClass>)
        requires
            triad.wf(),
        ensures
            pcs@ == self.collection(triad),
    {
        let root = triad.root.0 as i32;
        let base: i32 = match self {
            System::Hexatonic => root % 4,
            System::Octatonic => root % 3,
        };
        let offsets: Vec<i32> = match self {
            System::Hexatonic => vec![0, 3, 4, 7, 8, 11],
            System::Octatonic => vec![0, 1, 3, 4, 6, 7, 9, 10],
        };
        let ghost spec_offsets = self.offsets();
        assert(offsets@.len() == spec_offsets.len());
        assert(forall|k: int| 0 <= k < offsets@.len() ==> offsets@[k] as int == spec_offsets[k]);
        let mut pcs: Vec<PitchClass> = Vec::new();
        let mut i: usize = 0;
        while i < offsets.len()
            invariant
                i <= offsets@.len(),
                offsets@.len() == spec_offsets.len(),
                forall|k: int| 0 <= k < offsets@.len() ==> offsets@[k] as int == spec_offsets[k],
                forall|k: int| 0 <= k < offsets@.len() ==> 0 <= #[trigger] offsets@[k] < 12,
                0 <= base < 4,
                base as int == (triad.root.0 as int) % self.modulus(),
                pcs@ == spec_offsets.take(i as int).map_values(|o: int| pc(base + o)),
            decreases offsets@.len() - i,
        {
            pcs.push(PitchClass::new(base + offsets[i]));
            assert(spec_offsets.take(i + 1).map_values(|o: int| pc(base + o)) =~= spec_offsets.take(
                i as int,
            ).map_values(|o: int| pc(base + o)).push(pc(base + offsets@[i as int])));
            i = i + 1;
        }
        assert(spec_offsets.take(i as int) =~= spec_offsets);
        pcs
    }
}

/// The move a cycle-confined walk in `system` takes after `last_op`, and
/// the system it is in afterwards: on an escape, the system's third move
/// (modulating onto the other system); otherwise the pair member other
/// than the last move.
pub open spec fn confined_move(system: System, last_op: Option<Utt>, escape: bool) -> (System, Utt) {
    if escape {
        (system.toggled(), system.spec_third_op())
    } else {
        let pair = system.spec_pair();
        (system, if last_op == Some(pair[0]) {
            pair[1]
        } else {
            pair[0]
        })
    }
}

/// Stay on the current hexatonic or octatonic cycle (alternating its two
/// defining moves) until a random escape fires, then take the third move
/// once to modulate onto the other kind of system, and continue. An
/// escape fires with chance `escape_numerator / escape_denominator`.
pub struct CycleConfinedWalk {
    rng: StdRng,
    escape_numerator: u32,
    escape_denominator: u32,
    system: System,
    last_op: Option<Utt>,
}

impl CycleConfinedWalk {
    /// The escape chance is a proper fraction, and the last move is one
    /// of the current system's pair (or there is none yet).
    #[verifier::type_invariant]
    spec fn inv(self) -> bool {
        &&& 0 < self.escape_denominator
        &&& self.escape_numerator <= self.escape_denominator
        &&& (self.last_op matches Some(op) ==> self.system.spec_pair().contains(op))
    }

    pub closed spec fn system(&self) -> System {
        self.system
    }

    pub closed spec fn last_op(&self) -> Option<Utt> {
        self.last_op
    }

    /// The escape chance as (numerator, denominator).
    pub closed spec fn escape_chance(&self) -> (u32, u32) {
        (self.escape_numerator, self.escape_denominator)
    }

    /// The escape chance as (numerator, denominator).
    pub fn escape_ratio(&self) -> (r: (u32, u32))
        ensures
            r == self.escape_chance(),
    {
        (self.escape_numerator, self.escape_denominator)
    }

    pub fn new(system: System, escape_numerator: u32, escape_denominator: u32) -> (w:
        CycleConfinedWalk)
        requires
            0 < escape_denominator,
            escape_numerator <= escape_denominator,
        ensures
            w.system() == system,
            w.last_op() == None::<Utt>,
            w.escape_chance() == (escape_numerator, escape_denominator),
    {
        Self::with_rng(system, escape_numerator, escape_denominator, fresh_rng())
    }

    pub fn with_rng(
        system: System,
        escape_numerator: u32,
        escape_denominator: u32,
        rng: StdRng,
    ) -> (w: CycleConfinedWalk)
        requires
            0 < escape_denominator,
            escape_numerator <= escape_denominator,
        ensures
            w.system() == system,
            w.last_op() == None::<Utt>,
            w.escape_chance() == (escape_numerator, escape_denominator),
    {
        CycleConfinedWalk { rng, escape_numerator, escape_denominator, system, last_op: None }
    }

    /// One step given whether an escape fires.
    pub fn step_with(&mut self, current: Triad, escape: bool) -> (r: (Triad, Utt))
        requires
            current.wf(),
        ensures
            (final(self).system(), r.1) == confined_move(old(self).system(), old(self).last_op(), escape),
            final(self).last_op() == Some(r.1),
            final(self).escape_chance() == old(self).escape_chance(),
            r.0 == r.1.spec_apply(current),
            r.0.wf(),
            is_plr(r.1),
            Some(r.1) != old(self).last_op(),
    {
        proof {
            use_type_invariant(&*self);
        }
        let (system, op) = if escape {
            (self.system.toggle(), self.system.third_op())
        } else {
            let pair = self.system.pair();
            let use_second = match self.last_op {
                Some(last) => last == pair[0],
                None => false,
            };
            if use_second {
                (self.system, pair[1])
            } else {
                (self.system, pair[0])
            }
        };
        assert(system.spec_pair().contains(op)) by {
            if escape {
                assert(system.spec_pair()[1] == op);
            } else if system.spec_pair()[1] == op {
            } else {
                assert(system.spec_pair()[0] == op);
            }
        }
        // The last move is cleared first, so that the type invariant
        // holds between the two field updates.
        self.last_op = None;
        self.system = system;
        self.last_op = Some(op);
        (op.apply(current), op)
    }
}

impl WalkStrategy for CycleConfinedWalk {
    /// The confined move for some escape outcome (never with a zero
    /// chance, always with a certain one), which becomes the last move;
    /// the escape chance stays as it is.
    open spec fn spec_next(&self, current: Triad, history: Seq<Triad>, after: Self, r: (Triad, Utt)) -> bool {
        &&& exists|escape: bool|
            {
                &&& (after.system(), r.1) == confined_move(self.system(), self.last_op(), escape)
                &&& (self.escape_chance().0 == 0 ==> !escape)
                &&& (self.escape_chance().0 == self.escape_chance().1 ==> escape)
            }
        &&& after.last_op() == Some(r.1)
        &&& after.escape_chance() == self.escape_chance()
        &&& is_plr(r.1)
        &&& Some(r.1) != self.last_op()
    }

    open spec fn spec_current_system(&self) -> Option<System> {
        Some(self.system())
    }

    fn next(&mut self, current: Triad, _history: &[Triad]) -> (r: (Triad, Utt)) {
        proof {
            use_type_invariant(&*self);
        }
        let escape = random_ratio(&mut self.rng, self.escape_numerator, self.escape_denominator);
        self.step_with(current, escape)
    }

    fn current_system(&self) -> (s: Option<System>) {
        Some(self.system)
    }
}

/// Escaping at every step alternates R (hexatonic's third move) and L
/// (octatonic's third move) while toggling the system: exactly the R/L
/// Hamiltonian walk, when the walk starts hexatonic at an even step.
pub proof fn lemma_full_escape_matches_the_hamiltonian_walk(system: System, last_op: Option<Utt>, step: nat)
    requires
        (system == System::Hexatonic) == (step % 2 == 0),
    ensures
        confined_move(system, last_op, true).1 == hamiltonian_move(step as int),
        (confined_move(system, last_op, true).0 == System::Hexatonic) == ((step + 1) % 2 == 0),
{
}

/// While it does not escape, a confined walk only uses its system's two
/// defining moves.
pub proof fn lemma_confined_walk_stays_in_its_system(system: System, last_op: Option<Utt>)
    ensures
        confined_move(system, last_op, false).0 == system,
        system.spec_pair().contains(confined_move(system, last_op, false).1),
{
    let pair = system.spec_pair();
    if last_op == Some(pair[0]) {
        assert(pair.contains(pair[1]));
    } else {
        assert(pair.contains(pair[0]));
    }
}

/// A system's collection is shared by every triad on its cycle: the
/// system's own two moves never change it.
pub proof fn lemma_collection_is_shared_along_the_cycle(system: System, t: Triad, op: Utt)
    requires
        t.wf(),
        system.spec_pair().contains(op),
    ensures
        system.collection(op.spec_apply(t)) == system.collection(t),
{
    let r = t.root.0 as int;
    let r2 = op.spec_apply(t).root.0 as int;
    assert(r2 % system.modulus() == r % system.modulus());
}

/// Every triad's own pitch classes lie in its hexatonic and in its
/// octatonic collection.
pub proof fn lemma_triad_lies_in_its_collection(system: System, t: Triad)
    requires
        t.wf(),
    ensures
        forall|k: int|
            0 <= k < 3 ==> system.collection(t).contains(#[trigger] t.spec_pitch_classes()[k]),
{
    assert forall|k: int| 0 <= k < 3 implies system.collection(t).contains(
        #[trigger] t.spec_pitch_classes()[k],
    ) by {
        lemma_tone_in_collection(system, t, k);
    }
}

#[verifier::rlimit(40)]
proof fn lemma_tone_in_collection(system: System, t: Triad, k: int)
    requires
        t.wf(),
        0 <= k < 3,
    ensures
        system.collection(t).contains(t.spec_pitch_classes()[k]),
{
    let c = system.collection(t);
    let r = t.root.0 as int;
    let base = r % system.modulus();
    let x = t.spec_pitch_classes()[k];
    let off = (x.0 - base) % 12;
    let offsets = system.offsets();
    assert(x.0 == (r + (if k == 0 {
        0
    } else if k == 1 {
        crate::harmony::third_size(t.mode)
    } else {
        7
    })) % 12);
    let j = choose|j: int| 0 <= j < offsets.len() && offsets[j] == off;
    assert(c[j] == pc(base + off));
    assert(c[j] == x);
}

} // verus!
