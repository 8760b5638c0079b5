//! Fill strategies: extra melody notes placed between two main beats,
//! each at a fraction of the gap, without touching the chord.

use vstd::prelude::*;

use crate::harmony::{PitchClass, Triad};

verus! {

/// One fill note, sounding `numerator / denominator` of the way through
/// the gap after a main event.
#[derive(Clone, Copy, Debug, PartialEq, Eq)]
pub struct FillNote {
    pub numerator: u128,
    pub denominator: u128,
    pub pitch: PitchClass,
}

/// A fill note lies strictly inside the gap, with a denominator of at most
/// 2^64 (so that two fractions compare exactly in `u128`) and a
/// well-formed pitch.
pub open spec fn fill_wf(f: FillNote) -> bool {
    &&& 0 < f.numerator < f.denominator
    &&& f.denominator <= 0x1_0000_0000_0000_0000
    &&& f.pitch.wf()
}

/// Every fill note is well formed.
pub open spec fn fills_wf(fills: Seq<FillNote>) -> bool {
    forall|i: int| 0 <= i < fills.len() ==> fill_wf(#[trigger] fills[i])
}

/// `a` sounds strictly earlier in the gap than `b`.
pub open spec fn frac_lt(a: FillNote, b: FillNote) -> bool {
    a.numerator * b.denominator < b.numerator * a.denominator
}

/// Well-formed fill notes in ascending order of their fractions.
pub open spec fn fills_in_order(fills: Seq<FillNote>) -> bool {
    &&& fills_wf(fills)
    &&& forall|i: int, j: int| 0 <= i < j < fills.len() ==> !frac_lt(#[trigger] fills[j], #[trigger] fills[i])
}

/// Note `i` of `fills` comes before note `j` once they are sorted: by
/// fraction, and in their given order among equal fractions.
pub open spec fn fill_comes_before(fills: Seq<FillNote>, i: int, j: int) -> bool {
    ||| frac_lt(fills[i], fills[j])
    ||| (!frac_lt(fills[j], fills[i]) && i < j)
}

/// `order` lists every position of `fills` exactly once, in a stable
/// ascending order of fractions.
pub open spec fn is_fill_order(fills: Seq<FillNote>, order: Seq<usize>) -> bool {
    &&& order.len() == fills.len()
    &&& forall|k: int| 0 <= k < order.len() ==> #[trigger] order[k] < fills.len()
    &&& forall|x: usize| x < fills.len() ==> order.contains(x)
    &&& forall|i: int, j: int|
        0 <= i < j < order.len() ==> fill_comes_before(fills, order[i] as int, order[j] as int)
}

/// `sorted` is `fills` sorted by fraction, ties kept in their given order.
pub open spec fn stably_sorted(fills: Seq<FillNote>, sorted: Seq<FillNote>) -> bool {
    exists|order: Seq<usize>|
        is_fill_order(fills, order) && sorted == order.map_values(|k: usize| fills[k as int])
}

/// Comparing fractions is transitive, strictly so when either step is
/// strict.
proof fn lemma_frac_order_transitive(a: FillNote, b: FillNote, c: FillNote)
    requires
        fill_wf(a),
        fill_wf(b),
        fill_wf(c),
    ensures
        !frac_lt(b, a) && !frac_lt(c, b) ==> !frac_lt(c, a),
        frac_lt(a, b) && !frac_lt(c, b) ==> frac_lt(a, c),
        !frac_lt(b, a) && frac_lt(b, c) ==> frac_lt(a, c),
{
    let (x1, y1, x2, y2, x3, y3) = (
        a.numerator as int,
        a.denominator as int,
        b.numerator as int,
        b.denominator as int,
        c.numerator as int,
        c.denominator as int,
    );
    assert(x1 * y2 <= x2 * y1 && x2 * y3 <= x3 * y2 ==> x1 * y3 <= x3 * y1) by (nonlinear_arith)
        requires
            y1 > 0,
            y2 > 0,
            y3 > 0,
    ;
    assert(x1 * y2 < x2 * y1 && x2 * y3 <= x3 * y2 ==> x1 * y3 < x3 * y1) by (nonlinear_arith)
        requires
            y1 > 0,
            y2 > 0,
            y3 > 0,
    ;
    assert(x1 * y2 <= x2 * y1 && x2 * y3 < x3 * y2 ==> x1 * y3 < x3 * y1) by (nonlinear_arith)
        requires
            y1 > 0,
            y2 > 0,
            y3 > 0,
    ;
}

/// Whether `a` sounds strictly earlier than `b`.
fn frac_lt_exec(a: FillNote, b: FillNote) -> (r: bool)
    requires
        fill_wf(a),
        fill_wf(b),
    ensures
        r == frac_lt(a, b),
{
    assert(a.numerator * b.denominator <= u128::MAX) by (nonlinear_arith)
        requires
            a.numerator < 0x1_0000_0000_0000_0000,
            b.denominator <= 0x1_0000_0000_0000_0000,
    ;
    assert(b.numerator * a.denominator <= u128::MAX) by (nonlinear_arith)
        requires
            b.numerator < 0x1_0000_0000_0000_0000,
            a.denominator <= 0x1_0000_0000_0000_0000,
    ;
    a.numerator * b.denominator < b.numerator * a.denominator
}

/// Positions of `fills` in stable ascending order of fraction, by
/// inserting each next position after everything that sorts no later.
fn fill_order(fills: &Vec<FillNote>) -> (order: Vec<usize>)
    requires
        fills_wf(fills@),
    ensures
        is_fill_order(fills@, order@),
{
    let mut order: Vec<usize> = Vec::new();
    let mut i: usize = 0;
    while i < fills.len()
        invariant
            i <= fills@.len(),
            fills_wf(fills@),
            order@.len() == i,
            forall|k: int| 0 <= k < order@.len() ==> #[trigger] order@[k] < i,
            forall|x: usize| x < i ==> order@.contains(x),
            forall|a: int, b: int|
                0 <= a < b < order@.len() ==> fill_comes_before(fills@, order@[a] as int, order@[b] as int),
        decreases fills@.len() - i,
    {
        let f = fills[i];
        let mut pos: usize = 0;
        while pos < order.len() && !frac_lt_exec(f, fills[order[pos]])
            invariant
                pos <= order@.len(),
                fills_wf(fills@),
                forall|k: int| 0 <= k < order@.len() ==> #[trigger] order@[k] < i,
                i < fills@.len(),
                f == fills@[i as int],
                forall|k: int| 0 <= k < pos ==> fill_comes_before(fills@, #[trigger] order@[k] as int, i as int),
            decreases order@.len() - pos,
        {
            pos = pos + 1;
        }
        let ghost before = order@;
        proof {
            assert forall|k: int| pos <= k < before.len() implies fill_comes_before(
                fills@,
                i as int,
                #[trigger] before[k] as int,
            ) by {
                let p = before[pos as int] as int;
                assert(frac_lt(fills@[i as int], fills@[p]));
                if k > pos {
                    let q = before[k] as int;
                    assert(fill_comes_before(fills@, p, q));
                    lemma_frac_order_transitive(fills@[i as int], fills@[p], fills@[q]);
                }
            }
        }
        order.insert(pos, i);
        proof {
            assert(order@ == before.insert(pos as int, i));
            assert forall|x: usize| x < i + 1 implies order@.contains(x) by {
                if x == i {
                    assert(order@[pos as int] == x);
                } else {
                    assert(before.contains(x));
                    let k = choose|k: int| 0 <= k < before.len() && before[k] == x;
                    if k < pos {
                        assert(order@[k] == x);
                    } else {
                        assert(order@[k + 1] == x);
                    }
                }
            }
            assert forall|a: int, b: int| 0 <= a < b < order@.len() implies fill_comes_before(
                fills@,
                order@[a] as int,
                order@[b] as int,
            ) by {
                if a < pos && b < pos {
                    assert(order@[a] == before[a] && order@[b] == before[b]);
                } else if a < pos && b == pos {
                    assert(order@[a] == before[a]);
                } else if a < pos {
                    assert(order@[a] == before[a] && order@[b] == before[b - 1]);
                } else if a == pos {
                    assert(order@[b] == before[b - 1]);
                } else {
                    assert(order@[a] == before[a - 1] && order@[b] == before[b - 1]);
                }
            }
        }
        i = i + 1;
    }
    order
}

/// `fills` sorted by fraction, ties kept in their given order.
pub fn sort_fills(fills: Vec<FillNote>) -> (sorted: Vec<FillNote>)
    requires
        fills_wf(fills@),
    ensures
        stably_sorted(fills@, sorted@),
        fills_in_order(sorted@),
{
    let order = fill_order(&fills);
    let mut sorted: Vec<FillNote> = Vec::new();
    let mut k: usize = 0;
    while k < order.len()
        invariant
            k <= order@.len(),
            is_fill_order(fills@, order@),
            sorted@ == order@.take(k as int).map_values(|j: usize| fills@[j as int]),
        decreases order@.len() - k,
    {
        sorted.push(fills[order[k]]);
        assert(order@.take(k + 1).map_values(|j: usize| fills@[j as int]) =~= order@.take(
            k as int,
        ).map_values(|j: usize| fills@[j as int]).push(fills@[order@[k as int] as int]));
        k = k + 1;
    }
    assert(order@.take(k as int) =~= order@);
    proof {
        assert forall|i: int| 0 <= i < sorted@.len() implies fill_wf(#[trigger] sorted@[i]) by {
            assert(sorted@[i] == fills@[order@[i] as int]);
        }
        assert forall|i: int, j: int| 0 <= i < j < sorted@.len() implies !frac_lt(
            #[trigger] sorted@[j],
            #[trigger] sorted@[i],
        ) by {
            assert(fill_comes_before(fills@, order@[i] as int, order@[j] as int));
            assert(sorted@[i] == fills@[order@[i] as int] && sorted@[j] == fills@[order@[j] as int]);
            lemma_frac_order_transitive(sorted@[i], sorted@[j], sorted@[i]);
        }
    }
    sorted
}

/// Given the triad a main event just arrived at, the extra notes to
/// interleave before the next main event, each at a fraction of the gap.
pub trait FillStrategy: Sized {
    /// Whether a strategy in this state may answer `triad` with `fills` and
    /// be left in state `after`. A strategy that says nothing of itself
    /// allows any well-formed fills.
    open spec fn spec_fills(&self, triad: Triad, after: Self, fills: Seq<FillNote>) -> bool {
        true
    }

    fn fills(&mut self, triad: Triad) -> (fills: Vec<FillNote>)
        requires
            triad.wf(),
        ensures
            fills_wf(fills@),
            old(self).spec_fills(triad, *final(self), fills@),
    ;
}

/// No subdivision: chord and melody share the main beat alone.
pub struct NoFill;

impl FillStrategy for NoFill {
    /// Nothing.
    open spec fn spec_fills(&self, triad: Triad, after: Self, fills: Seq<FillNote>) -> bool {
        fills.len() == 0 && after == *self
    }

    fn fills(&mut self, _triad: Triad) -> (fills: Vec<FillNote>) {
        Vec::new()
    }
}

/// Arpeggiates the current triad's tones at `count` evenly-spaced points
/// within the gap, cycling third, fifth, root, third, ...
pub struct ArpeggioFill {
    pub count: usize,
}

/// The `i`-th (from 0) of `count` arpeggio fill notes over `triad`.
pub open spec fn arpeggio_note(triad: Triad, count: nat, i: int) -> FillNote {
    FillNote {
        numerator: (i + 1) as u128,
        denominator: (count + 1) as u128,
        pitch: triad.spec_pitch_classes()[(i + 1) % 3],
    }
}

impl FillStrategy for ArpeggioFill {
    /// `count` arpeggio notes, evenly spaced through the gap.
    open spec fn spec_fills(&self, triad: Triad, after: Self, fills: Seq<FillNote>) -> bool {
        &&& fills.len() == self.count
        &&& forall|i: int| 0 <= i < fills.len() ==> #[trigger] fills[i] == arpeggio_note(triad, self.count as nat, i)
        &&& after == *self
    }

    fn fills(&mut self, triad: Triad) -> (fills: Vec<FillNote>)
        ensures
            forall|a: int, b: int| 0 <= a < b < fills@.len() ==> frac_lt(fills@[a], fills@[b]),
    {
        let pcs = triad.pitch_classes();
        let denominator = self.count as u128 + 1;
        let mut fills: Vec<FillNote> = Vec::new();
        let mut i: usize = 0;
        while i < self.count
            invariant
                i <= self.count,
                denominator == self.count + 1,
                pcs@ == triad.spec_pitch_classes(),
                forall|k: int| 0 <= k < 3 ==> (#[trigger] pcs@[k]).wf(),
                fills@.len() == i,
                forall|k: int|
                    0 <= k < i ==> #[trigger] fills@[k] == arpeggio_note(triad, self.count as nat, k),
            decreases self.count - i,
        {
            let n = i + 1;
            fills.push(FillNote { numerator: n as u128, denominator, pitch: pcs[n % 3] });
            i = i + 1;
        }
        assert forall|a: int, b: int| 0 <= a < b < fills@.len() implies frac_lt(fills@[a], fills@[b]) by {
            let d = (self.count + 1) as int;
            assert((a + 1) * d < (b + 1) * d) by (nonlinear_arith)
                requires
                    a < b,
                    d > 0,
            ;
        }
        fills
    }
}

} // verus!
