//! Pitch classes, triads and uniform triadic transformations (UTTs).
//!
//! A UTT `<sign, m, n>` sends `(root, Major)` to `(root + m, mode')` and
//! `(root, Minor)` to `(root + n, mode')`, where `mode'` flips iff `sign`
//! is `Minus`. The neo-Riemannian P, L and R are three named UTTs.

use vstd::prelude::*;

verus! {

/// The pitch class a (possibly negative) semitone count reduces to.
pub open spec fn pc_mod(v: int) -> int {
    v % 12
}

/// A pitch class, 0-11, where 0 = C. Arithmetic wraps mod 12.
#[derive(Clone, Copy, PartialEq, Eq, Structural, Hash, Debug)]
pub struct PitchClass(pub u8);

/// The pitch class `v` semitones above C, wrapped into 0-11.
pub open spec fn pc(v: int) -> PitchClass {
    PitchClass(pc_mod(v) as u8)
}

impl PitchClass {
    /// A pitch class holds a value below 12.
    pub open spec fn wf(self) -> bool {
        self.0 < 12
    }

    /// The pitch class `k` semitones above this one.
    pub open spec fn shifted(self, k: int) -> PitchClass {
        pc(self.0 + k)
    }

    pub fn new(value: i32) -> (r: PitchClass)
        ensures
            r.wf(),
            r == pc(value as int),
    {
        let v = match value.checked_rem_euclid(12) {
            Some(v) => v,
            None => 0,
        };
        PitchClass(v as u8)
    }

    /// The note's name with sharps, "C" through "B".
    pub fn name(self) -> (s: &'static str)
        requires
            self.wf(),
        ensures
            s@ == note_name(self.0 as int),
    {
        proof {
            reveal_strlit("C");
            reveal_strlit("C#");
            reveal_strlit("D");
            reveal_strlit("D#");
            reveal_strlit("E");
            reveal_strlit("F");
            reveal_strlit("F#");
            reveal_strlit("G");
            reveal_strlit("G#");
            reveal_strlit("A");
            reveal_strlit("A#");
            reveal_strlit("B");
        }
        match self.0 {
            0 => "C",
            1 => "C#",
            2 => "D",
            3 => "D#",
            4 => "E",
            5 => "F",
            6 => "F#",
            7 => "G",
            8 => "G#",
            9 => "A",
            10 => "A#",
            _ => "B",
        }
    }
}

/// The sharp-spelled name of pitch class `v` (0-11).
pub open spec fn note_name(v: int) -> Seq<char> {
    if v == 0 {
        seq!['C']
    } else if v == 1 {
        seq!['C', '#']
    } else if v == 2 {
        seq!['D']
    } else if v == 3 {
        seq!['D', '#']
    } else if v == 4 {
        seq!['E']
    } else if v == 5 {
        seq!['F']
    } else if v == 6 {
        seq!['F', '#']
    } else if v == 7 {
        seq!['G']
    } else if v == 8 {
        seq!['G', '#']
    } else if v == 9 {
        seq!['A']
    } else if v == 10 {
        seq!['A', '#']
    } else {
        seq!['B']
    }
}

/// The pitch classes spelled with a sharp: the black keys.
pub open spec fn is_sharp(v: int) -> bool {
    v == 1 || v == 3 || v == 6 || v == 8 || v == 10
}

/// Every pitch class has a name of its own; a natural is named by a single
/// letter from A to G, and a sharp by the name of the natural a semitone
/// below followed by '#'.
pub proof fn lemma_pitch_class_names_are_sharp_spelled(a: int, b: int)
    requires
        0 <= a < 12,
        0 <= b < 12,
    ensures
        a != b ==> note_name(a) != note_name(b),
        !is_sharp(a) ==> note_name(a).len() == 1 && 'A' <= note_name(a)[0] <= 'G',
        is_sharp(a) ==> !is_sharp(a - 1) && note_name(a) == note_name(a - 1).push('#'),
{
    let na = note_name(a);
    let nb = note_name(b);
    if a != b {
        assert(na.len() != nb.len() || na[0] != nb[0]);
    }
    if is_sharp(a) {
        assert(note_name(a) =~= note_name(a - 1).push('#'));
    }
}

impl core::ops::Add<i32> for PitchClass {
    type Output = PitchClass;

    fn add(self, rhs: i32) -> (r: PitchClass) {
        PitchClass::new(self.0 as i32 + rhs)
    }
}

impl vstd::std_specs::ops::AddSpecImpl<i32> for PitchClass {
    open spec fn obeys_add_spec() -> bool {
        true
    }

    open spec fn add_req(self, rhs: i32) -> bool {
        self.0 + rhs <= i32::MAX
    }

    open spec fn add_spec(self, rhs: i32) -> PitchClass {
        self.shifted(rhs as int)
    }
}

#[derive(Clone, Copy, PartialEq, Eq, Structural, Hash, Debug)]
pub enum Mode {
    Major,
    Minor,
}

impl Mode {
    pub open spec fn flipped(self) -> Mode {
        match self {
            Mode::Major => Mode::Minor,
            Mode::Minor => Mode::Major,
        }
    }

    pub fn flip(self) -> (r: Mode)
        ensures
            r == self.flipped(),
    {
        match self {
            Mode::Major => Mode::Minor,
            Mode::Minor => Mode::Major,
        }
    }
}

/// A major or minor triad, identified by root and mode alone (24 total).
#[derive(Clone, Copy, PartialEq, Eq, Structural, Hash, Debug)]
pub struct Triad {
    pub root: PitchClass,
    pub mode: Mode,
}

/// The semitone size of a mode's third above the root.
pub open spec fn third_size(mode: Mode) -> int {
    match mode {
        Mode::Major => 4,
        Mode::Minor => 3,
    }
}

impl Triad {
    pub open spec fn wf(self) -> bool {
        self.root.wf()
    }

    /// Root, third, fifth.
    pub open spec fn spec_pitch_classes(self) -> Seq<PitchClass> {
        seq![self.root, self.root.shifted(third_size(self.mode)), self.root.shifted(7)]
    }

    pub fn new(root: i32, mode: Mode) -> (t: Triad)
        ensures
            t.wf(),
            t.root == pc(root as int),
            t.mode == mode,
    {
        Triad { root: PitchClass::new(root), mode }
    }

    /// The triad's name: its root's name, with "m" for minor.
    pub fn to_string(&self) -> (s: String)
        requires
            self.wf(),
        ensures
            s@ == note_name(self.root.0 as int) + if self.mode == Mode::Minor {
                seq!['m']
            } else {
                Seq::<char>::empty()
            },
    {
        let mut s = String::new();
        s.append(self.root.name());
        match self.mode {
            Mode::Major => {},
            Mode::Minor => {
                proof {
                    reveal_strlit("m");
                }
                s.append("m");
            },
        }
        proof {
            if self.mode == Mode::Major {
                assert(s@ =~= note_name(self.root.0 as int) + Seq::<char>::empty());
            }
        }
        s
    }

    pub fn apply(self, utt: Utt) -> (t: Triad)
        requires
            self.wf(),
            utt.apply_req(self),
        ensures
            t.wf(),
            t == utt.spec_apply(self),
    {
        utt.apply(self)
    }

    /// The triad's three pitch classes: root, third, fifth.
    pub fn pitch_classes(self) -> (pcs: [PitchClass; 3])
        requires
            self.wf(),
        ensures
            pcs@ == self.spec_pitch_classes(),
            forall|i: int| 0 <= i < 3 ==> (#[trigger] pcs@[i]).wf(),
    {
        let third: i32 = match self.mode {
            Mode::Major => 4,
            Mode::Minor => 3,
        };
        let pcs = [self.root, self.root + third, self.root + 7];
        assert(pcs@ =~= self.spec_pitch_classes());
        pcs
    }
}

/// Whether a `Utt` preserves (`Plus`) or flips (`Minus`) triad mode.
#[derive(Clone, Copy, PartialEq, Eq, Structural, Hash, Debug)]
pub enum Sign {
    Plus,
    Minus,
}

impl Sign {
    pub open spec fn spec_xor(self, other: Sign) -> Sign {
        if self == other {
            Sign::Plus
        } else {
            Sign::Minus
        }
    }

    fn xor(self, other: Sign) -> (r: Sign)
        ensures
            r == self.spec_xor(other),
    {
        match (self, other) {
            (Sign::Plus, Sign::Plus) => Sign::Plus,
            (Sign::Minus, Sign::Minus) => Sign::Plus,
            _ => Sign::Minus,
        }
    }
}

/// A uniform triadic transformation `<sign, m, n>`: major triads move their
/// root by `m`, minor ones by `n`, and the mode flips iff `sign` is `Minus`.
#[derive(Clone, Copy, PartialEq, Eq, Structural, Hash, Debug)]
pub struct Utt {
    pub sign: Sign,
    pub m: i32,
    pub n: i32,
}

impl Utt {
    pub open spec fn spec_identity() -> Utt {
        Utt { sign: Sign::Plus, m: 0, n: 0 }
    }

    pub open spec fn spec_p() -> Utt {
        Utt { sign: Sign::Minus, m: 0, n: 0 }
    }

    pub open spec fn spec_l() -> Utt {
        Utt { sign: Sign::Minus, m: 4, n: 8 }
    }

    pub open spec fn spec_r() -> Utt {
        Utt { sign: Sign::Minus, m: 9, n: 3 }
    }

    /// The identity transformation.
    #[allow(non_snake_case)]
    pub fn IDENTITY() -> (u: Utt)
        ensures
            u == Utt::spec_identity(),
    {
        Utt { sign: Sign::Plus, m: 0, n: 0 }
    }

    /// Parallel: (root, Major) <-> (root, Minor). Fixes the perfect-fifth edge.
    #[allow(non_snake_case)]
    pub fn P() -> (u: Utt)
        ensures
            u == Utt::spec_p(),
    {
        Utt { sign: Sign::Minus, m: 0, n: 0 }
    }

    /// Leading-tone exchange: (root, Major) -> (root+4, Minor); fixes the
    /// minor-third edge.
    #[allow(non_snake_case)]
    pub fn L() -> (u: Utt)
        ensures
            u == Utt::spec_l(),
    {
        Utt { sign: Sign::Minus, m: 4, n: 8 }
    }

    /// Relative: (root, Major) -> (root+9, Minor); fixes the major-third edge.
    #[allow(non_snake_case)]
    pub fn R() -> (u: Utt)
        ensures
            u == Utt::spec_r(),
    {
        Utt { sign: Sign::Minus, m: 9, n: 3 }
    }

    /// The root offset this UTT applies to a triad of the given mode.
    pub open spec fn offset(self, mode: Mode) -> int {
        match mode {
            Mode::Major => self.m as int,
            Mode::Minor => self.n as int,
        }
    }

    pub open spec fn spec_apply(self, t: Triad) -> Triad {
        Triad {
            root: t.root.shifted(self.offset(t.mode)),
            mode: if self.sign == Sign::Minus {
                t.mode.flipped()
            } else {
                t.mode
            },
        }
    }

    /// Applying this UTT to `t` stays within `i32` while shifting the root.
    pub open spec fn apply_req(self, t: Triad) -> bool {
        t.root.0 + self.offset(t.mode) <= i32::MAX
    }

    /// Both root offsets are small enough to apply to any pitch class.
    pub open spec fn bounded(self) -> bool {
        self.m <= i32::MAX - 11 && self.n <= i32::MAX - 11
    }

    pub open spec fn spec_transpose(k: i32) -> Utt {
        Utt { sign: Sign::Plus, m: k, n: k }
    }

    /// Mode-preserving transposition by `k` semitones.
    pub fn transpose(k: i32) -> (u: Utt)
        ensures
            u == Utt::spec_transpose(k),
    {
        Utt { sign: Sign::Plus, m: k, n: k }
    }

    pub fn apply(self, triad: Triad) -> (t: Triad)
        requires
            triad.wf(),
            self.apply_req(triad),
        ensures
            t.wf(),
            t == self.spec_apply(triad),
    {
        let (offset, flips) = match triad.mode {
            Mode::Major => (self.m, self.sign == Sign::Minus),
            Mode::Minor => (self.n, self.sign == Sign::Minus),
        };
        let mode = if flips {
            triad.mode.flip()
        } else {
            triad.mode
        };
        Triad { root: triad.root + offset, mode }
    }

    /// The offsets `self` contributes after `other` has run: swapped when
    /// `other` flips the mode.
    pub open spec fn spec_compose(self, other: Utt) -> Utt {
        let (sm, sn) = if other.sign == Sign::Minus {
            (self.n, self.m)
        } else {
            (self.m, self.n)
        };
        Utt {
            sign: self.sign.spec_xor(other.sign),
            m: ((other.m + sm) % 12) as i32,
            n: ((other.n + sn) % 12) as i32,
        }
    }

    /// Composing stays within `i32` while adding the two pairs of offsets
    /// that are combined (swapped when `other` flips the mode).
    pub open spec fn compose_req(self, other: Utt) -> bool {
        if other.sign == Sign::Minus {
            &&& i32::MIN <= other.m + self.n <= i32::MAX
            &&& i32::MIN <= other.n + self.m <= i32::MAX
        } else {
            &&& i32::MIN <= other.m + self.m <= i32::MAX
            &&& i32::MIN <= other.n + self.n <= i32::MAX
        }
    }

    /// The UTT equivalent to applying `other` then `self`.
    pub fn compose(self, other: Utt) -> (u: Utt)
        requires
            self.compose_req(other),
        ensures
            u == self.spec_compose(other),
            0 <= u.m < 12,
            0 <= u.n < 12,
            u.bounded(),
    {
        let sign = self.sign.xor(other.sign);
        let (self_m, self_n) = match other.sign {
            Sign::Minus => (self.n, self.m),
            Sign::Plus => (self.m, self.n),
        };
        let m = match (other.m + self_m).checked_rem_euclid(12) {
            Some(v) => v,
            None => 0,
        };
        let n = match (other.n + self_n).checked_rem_euclid(12) {
            Some(v) => v,
            None => 0,
        };
        Utt { sign, m, n }
    }
}

} // verus!

verus! {

/// P, L and R each undo themselves: applying one twice returns any triad
/// to where it started.
pub proof fn lemma_plr_are_involutions(t: Triad)
    requires
        t.wf(),
    ensures
        Utt::spec_p().spec_apply(Utt::spec_p().spec_apply(t)) == t,
        Utt::spec_l().spec_apply(Utt::spec_l().spec_apply(t)) == t,
        Utt::spec_r().spec_apply(Utt::spec_r().spec_apply(t)) == t,
{
}

/// Composition agrees with sequential application: `a.compose(b)` applied
/// to any triad gives the same triad as applying `b` and then `a`.
pub proof fn lemma_compose_matches_sequential_apply(a: Utt, b: Utt, t: Triad)
    requires
        t.wf(),
        a.compose_req(b),
    ensures
        a.spec_compose(b).spec_apply(t) == a.spec_apply(b.spec_apply(t)),
{
    let r = t.root.0 as int;
    let ob = b.offset(t.mode);
    let mid = b.spec_apply(t);
    let oa = a.offset(mid.mode);
    let c = a.spec_compose(b);
    assert(c.offset(t.mode) == (ob + oa) % 12);
    assert(((r + ob) % 12 + oa) % 12 == (r + ob + oa) % 12) by {
        vstd::arithmetic::div_mod::lemma_add_mod_noop_right(oa, r + ob, 12);
    }
    assert((r + (ob + oa) % 12) % 12 == (r + ob + oa) % 12) by {
        vstd::arithmetic::div_mod::lemma_add_mod_noop_right(r, ob + oa, 12);
    }
}

/// The identity is neutral for composition, on either side, for a UTT
/// whose offsets are already reduced to 0-11; and every composition has
/// its offsets reduced to 0-11.
pub proof fn lemma_identity_is_neutral_for_compose(u: Utt, a: Utt, b: Utt)
    requires
        0 <= u.m < 12,
        0 <= u.n < 12,
    ensures
        Utt::spec_identity().spec_compose(u) == u,
        u.spec_compose(Utt::spec_identity()) == u,
        0 <= a.spec_compose(b).m < 12,
        0 <= a.spec_compose(b).n < 12,
{
}

/// Every UTT commutes with every transposition.
pub proof fn lemma_utt_commutes_with_transposition(u: Utt, k: i32, t: Triad)
    requires
        t.wf(),
    ensures
        u.spec_apply(Utt::spec_transpose(k).spec_apply(t)) == Utt::spec_transpose(
            k,
        ).spec_apply(u.spec_apply(t)),
{
    let r = t.root.0 as int;
    let o = u.offset(t.mode);
    assert(((r + k) % 12 + o) % 12 == (r + k + o) % 12) by {
        vstd::arithmetic::div_mod::lemma_add_mod_noop_right(o, r + k, 12);
    }
    assert(((r + o) % 12 + k) % 12 == (r + k + o) % 12) by {
        vstd::arithmetic::div_mod::lemma_add_mod_noop_right(k as int, r + o, 12);
    }
}

/// Riemann's dualism: the dominant transposition T7 is "L then R" on a
/// major triad but "R then L" on a minor one.
pub proof fn lemma_dominant_is_l_then_r_on_major_and_r_then_l_on_minor(root: int)
    ensures
        Utt::spec_r().spec_apply(Utt::spec_l().spec_apply(Triad { root: pc(root), mode: Mode::Major }))
            == Utt::spec_transpose(7).spec_apply(Triad { root: pc(root), mode: Mode::Major }),
        Utt::spec_l().spec_apply(Utt::spec_r().spec_apply(Triad { root: pc(root), mode: Mode::Minor }))
            == Utt::spec_transpose(7).spec_apply(Triad { root: pc(root), mode: Mode::Minor }),
{
}

/// No neo-Riemannian move leaves a triad where it was.
pub proof fn lemma_plr_have_no_fixed_triad(t: Triad)
    requires
        t.wf(),
    ensures
        Utt::spec_p().spec_apply(t) != t,
        Utt::spec_l().spec_apply(t) != t,
        Utt::spec_r().spec_apply(t) != t,
{
}

/// The letter of a neo-Riemannian move, or "?" for any other UTT.
pub fn op_name(op: Utt) -> (s: &'static str)
    ensures
        s@ == if op == Utt::spec_p() {
            seq!['P']
        } else if op == Utt::spec_l() {
            seq!['L']
        } else if op == Utt::spec_r() {
            seq!['R']
        } else {
            seq!['?']
        },
{
    proof {
        reveal_strlit("P");
        reveal_strlit("L");
        reveal_strlit("R");
        reveal_strlit("?");
    }
    if op == Utt::P() {
        "P"
    } else if op == Utt::L() {
        "L"
    } else if op == Utt::R() {
        "R"
    } else {
        "?"
    }
}

} // verus!
