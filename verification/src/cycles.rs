//! The cycles that alternating two neo-Riemannian moves traces through the
//! 24 triads: hexatonic (P, L), octatonic (P, R) and the Hamiltonian
//! R/L cycle that visits every triad once.

use vstd::prelude::*;

use crate::harmony::{Mode, Sign, Triad, Utt, pc};

verus! {

/// The triad reached from `t` after `k` steps alternating `a`, `b`, `a`, ...
pub open spec fn alternate(t: Triad, a: Utt, b: Utt, k: nat) -> Triad
    decreases k,
{
    if k == 0 {
        t
    } else {
        let prev = alternate(t, a, b, (k - 1) as nat);
        if (k - 1) % 2 == 0 {
            a.spec_apply(prev)
        } else {
            b.spec_apply(prev)
        }
    }
}

/// How far one `a`-then-`b` round moves the root of a triad in `mode`,
/// when both moves flip the mode.
pub open spec fn round_shift(mode: Mode, a: Utt, b: Utt) -> int {
    a.offset(mode) + b.offset(mode.flipped())
}

proof fn lemma_alternate_rounds(t: Triad, a: Utt, b: Utt, j: nat)
    requires
        t.wf(),
        a.sign == Sign::Minus,
        b.sign == Sign::Minus,
    ensures
        alternate(t, a, b, 2 * j) == (Triad {
            root: pc(t.root.0 + j * round_shift(t.mode, a, b)),
            mode: t.mode,
        }),
    decreases j,
{
    let d = round_shift(t.mode, a, b);
    let r = t.root.0 as int;
    if j == 0 {
        assert(alternate(t, a, b, 0) == t);
        assert(pc(r + 0 * d) == t.root);
    } else {
        let jm = (j - 1) as nat;
        lemma_alternate_rounds(t, a, b, jm);
        let prev = alternate(t, a, b, 2 * jm);
        let mid = alternate(t, a, b, 2 * jm + 1);
        assert(mid == a.spec_apply(prev));
        assert(alternate(t, a, b, 2 * jm + 2) == b.spec_apply(mid));
        let x = r + jm * d;
        assert(jm * d + d == j * d) by (nonlinear_arith)
            requires
                j == jm + 1,
        ;
        let oa = a.offset(t.mode);
        let ob = b.offset(t.mode.flipped());
        assert(prev.root.0 == x % 12);
        assert(mid.root.0 == (x % 12 + oa) % 12);
        assert(mid.mode == t.mode.flipped());
        assert(((x % 12 + oa) % 12 + ob) % 12 == (x + d) % 12) by {
            vstd::arithmetic::div_mod::lemma_add_mod_noop_right(oa, x, 12);
            vstd::arithmetic::div_mod::lemma_add_mod_noop_right(ob, x + oa, 12);
        }
        assert(2 * jm + 2 == 2 * j);
    }
}

/// Closed forms for every position of an alternating walk whose two moves
/// both flip the mode.
proof fn lemma_alternate_positions(t: Triad, a: Utt, b: Utt, k: nat)
    requires
        t.wf(),
        a.sign == Sign::Minus,
        b.sign == Sign::Minus,
    ensures
        k % 2 == 0 ==> alternate(t, a, b, k) == (Triad {
            root: pc(t.root.0 + (k / 2) * round_shift(t.mode, a, b)),
            mode: t.mode,
        }),
        k % 2 == 1 ==> alternate(t, a, b, k) == (Triad {
            root: pc(
                pc(t.root.0 + (k / 2) * round_shift(t.mode, a, b)).0 + a.offset(t.mode),
            ),
            mode: t.mode.flipped(),
        }),
{
    let j = k / 2;
    lemma_alternate_rounds(t, a, b, j);
    if k % 2 == 1 {
        assert(k == 2 * j + 1);
        assert(alternate(t, a, b, k) == a.spec_apply(alternate(t, a, b, 2 * j)));
    } else {
        assert(k == 2 * j);
    }
}

proof fn lemma_roots_differ(r: int, d: int, x: int, y: int)
    requires
        0 <= x < y,
        ((y - x) * d) % 12 != 0,
    ensures
        (r + x * d) % 12 != (r + y * d) % 12,
{
    if (r + x * d) % 12 == (r + y * d) % 12 {
        vstd::arithmetic::div_mod::lemma_sub_mod_noop(r + y * d, r + x * d, 12);
        assert((y - x) * d == y * d - x * d) by (nonlinear_arith);
        assert(((r + y * d) - (r + x * d)) % 12 == 0);
    }
}

/// No multiple `k * d` with `0 < k < n` is a whole number of octaves.
pub open spec fn no_octave_before(d: int, n: int) -> bool {
    forall|k: int| 0 < k < n ==> #[trigger] ((k * d) % 12) != 0
}

/// Two walk positions are equal only when both the mode parity and the
/// root match; this reduces distinctness to root arithmetic.
proof fn lemma_alternate_distinct(t: Triad, a: Utt, b: Utt, i: nat, j: nat)
    requires
        t.wf(),
        a.sign == Sign::Minus,
        b.sign == Sign::Minus,
        i < j,
        i % 2 == j % 2 ==> ((j / 2 - i / 2) * round_shift(t.mode, a, b)) % 12 != 0,
    ensures
        alternate(t, a, b, i) != alternate(t, a, b, j),
{
    lemma_alternate_positions(t, a, b, i);
    lemma_alternate_positions(t, a, b, j);
    let d = round_shift(t.mode, a, b);
    let oa = a.offset(t.mode);
    if i % 2 == j % 2 {
        lemma_roots_differ(t.root.0 as int, d, (i / 2) as int, (j / 2) as int);
    }
    if i % 2 == 1 && j % 2 == 1 {
        let x = (t.root.0 + (i / 2) * d) % 12;
        let y = (t.root.0 + (j / 2) * d) % 12;
        assert(0 <= x < 12 && 0 <= y < 12);
        if (x + oa) % 12 == (y + oa) % 12 {
            vstd::arithmetic::div_mod::lemma_sub_mod_noop(x + oa, y + oa, 12);
            assert((x - y) % 12 == 0);
            assert(false);
        }
    }
}

/// Alternating P and L (the hexatonic system) from any triad visits six
/// distinct triads and returns home on the sixth step.
pub proof fn lemma_hexatonic_cycle_has_length_6(t: Triad)
    requires
        t.wf(),
    ensures
        alternate(t, Utt::spec_p(), Utt::spec_l(), 6) == t,
        forall|i: nat, j: nat|
            i < j < 6 ==> alternate(t, Utt::spec_p(), Utt::spec_l(), i) != alternate(
                t,
                Utt::spec_p(),
                Utt::spec_l(),
                j,
            ),
{
    let (a, b) = (Utt::spec_p(), Utt::spec_l());
    lemma_alternate_positions(t, a, b, 6);
    assert(no_octave_before(8, 3) && no_octave_before(4, 3)) by {
        assert forall|k: int| 0 < k < 3 implies #[trigger] ((k * 8) % 12) != 0 && (k * 4) % 12 != 0 by {
            if k == 1 {
            } else {
            }
        }
    }
    assert forall|i: nat, j: nat| i < j < 6 implies alternate(t, a, b, i) != alternate(t, a, b, j) by {
        if i % 2 == j % 2 {
            assert((((j / 2) as int - (i / 2) as int) * round_shift(t.mode, a, b)) % 12 != 0);
        }
        lemma_alternate_distinct(t, a, b, i, j);
    }
}

/// Alternating P and R (the octatonic system) from any triad visits eight
/// distinct triads and returns home on the eighth step.
pub proof fn lemma_octatonic_cycle_has_length_8(t: Triad)
    requires
        t.wf(),
    ensures
        alternate(t, Utt::spec_p(), Utt::spec_r(), 8) == t,
        forall|i: nat, j: nat|
            i < j < 8 ==> alternate(t, Utt::spec_p(), Utt::spec_r(), i) != alternate(
                t,
                Utt::spec_p(),
                Utt::spec_r(),
                j,
            ),
{
    let (a, b) = (Utt::spec_p(), Utt::spec_r());
    lemma_alternate_positions(t, a, b, 8);
    assert(no_octave_before(3, 4) && no_octave_before(9, 4)) by {
        assert forall|k: int| 0 < k < 4 implies #[trigger] ((k * 3) % 12) != 0 && (k * 9) % 12 != 0 by {
            if k == 1 {
            } else if k == 2 {
            } else {
            }
        }
    }
    assert forall|i: nat, j: nat| i < j < 8 implies alternate(t, a, b, i) != alternate(t, a, b, j) by {
        if i % 2 == j % 2 {
            assert((((j / 2) as int - (i / 2) as int) * round_shift(t.mode, a, b)) % 12 != 0);
        }
        lemma_alternate_distinct(t, a, b, i, j);
    }
}

/// Alternating R and L from any triad visits all 24 triads exactly once
/// and returns home on the 24th step (a Hamiltonian cycle).
pub proof fn lemma_hamiltonian_cycle_has_length_24(t: Triad)
    requires
        t.wf(),
    ensures
        alternate(t, Utt::spec_r(), Utt::spec_l(), 24) == t,
        forall|i: nat, j: nat|
            i < j < 24 ==> alternate(t, Utt::spec_r(), Utt::spec_l(), i) != alternate(
                t,
                Utt::spec_r(),
                Utt::spec_l(),
                j,
            ),
{
    let (a, b) = (Utt::spec_r(), Utt::spec_l());
    lemma_alternate_positions(t, a, b, 24);
    assert(no_octave_before(17, 12) && no_octave_before(7, 12)) by {
        assert forall|k: int| 0 < k < 12 implies #[trigger] ((k * 17) % 12) != 0 && (k * 7) % 12
            != 0 by {
            if k == 1 {
            } else if k == 2 {
            } else if k == 3 {
            } else if k == 4 {
            } else if k == 5 {
            } else if k == 6 {
            } else if k == 7 {
            } else if k == 8 {
            } else if k == 9 {
            } else if k == 10 {
            } else {
            }
        }
    }
    assert forall|i: nat, j: nat| i < j < 24 implies alternate(t, a, b, i) != alternate(
        t,
        a,
        b,
        j,
    ) by {
        if i % 2 == j % 2 {
            assert((((j / 2) as int - (i / 2) as int) * round_shift(t.mode, a, b)) % 12 != 0);
        }
        lemma_alternate_distinct(t, a, b, i, j);
    }
}

} // verus!
