//! Rhythm: Bjorklund's algorithm, Euclidean rhythms, and a tabu choice
//! over a duration palette. Times are counted in whole rhythm steps.

use rand::rngs::StdRng;
use vstd::prelude::*;

use crate::random::{fresh_rng, random_below};

verus! {

/// `x` repeated `k` times.
pub open spec fn repeat(x: Seq<bool>, k: nat) -> Seq<bool>
    decreases k,
{
    if k == 0 {
        Seq::<bool>::empty()
    } else {
        repeat(x, (k - 1) as nat) + x
    }
}

/// How many onsets (`true`s) a pattern holds.
pub open spec fn count_onsets(s: Seq<bool>) -> nat
    decreases s.len(),
{
    if s.len() == 0 {
        0
    } else {
        count_onsets(s.drop_last()) + if s.last() {
            1nat
        } else {
            0nat
        }
    }
}

/// Bjorklund's pairing, on `k` copies of block `x` followed by `m` copies
/// of block `y`: while more than one `y` remains, pair each of the first
/// `min(k, m)` `x`s with a `y`, and let the unpaired leftovers (of
/// whichever kind) become the new remainder.
pub open spec fn euclid_fold(x: Seq<bool>, k: nat, y: Seq<bool>, m: nat) -> Seq<bool>
    decreases k + m,
{
    if m <= 1 || k == 0 {
        repeat(x, k) + repeat(y, m)
    } else if k > m {
        euclid_fold(x + y, m, x, (k - m) as nat)
    } else {
        euclid_fold(x + y, k, y, (m - k) as nat)
    }
}

/// The Euclidean rhythm E(`pulses`, `steps`) as Bjorklund's algorithm
/// lays it out, one slot per step, `true` where an onset falls.
pub open spec fn spec_bjorklund(pulses: nat, steps: nat) -> Seq<bool> {
    if pulses == steps {
        repeat(seq![true], steps)
    } else {
        euclid_fold(seq![true], pulses, seq![false], (steps - pulses) as nat)
    }
}

proof fn lemma_count_concat(a: Seq<bool>, b: Seq<bool>)
    ensures
        count_onsets(a + b) == count_onsets(a) + count_onsets(b),
    decreases b.len(),
{
    if b.len() == 0 {
        assert(a + b =~= a);
    } else {
        lemma_count_concat(a, b.drop_last());
        assert((a + b).drop_last() =~= a + b.drop_last());
    }
}

proof fn lemma_repeat_shape(x: Seq<bool>, k: nat)
    ensures
        repeat(x, k).len() == k * x.len(),
        count_onsets(repeat(x, k)) == k * count_onsets(x),
        k > 0 && x.len() > 0 ==> repeat(x, k)[0] == x[0],
    decreases k,
{
    if k > 0 {
        let km = (k - 1) as nat;
        lemma_repeat_shape(x, km);
        lemma_count_concat(repeat(x, km), x);
        assert(repeat(x, k) == repeat(x, km) + x);
        assert(count_onsets(repeat(x, k)) == km * count_onsets(x) + count_onsets(x));
        assert(km * x.len() + x.len() == k * x.len()) by (nonlinear_arith)
            requires
                k == km + 1,
        ;
        assert(km * count_onsets(x) + count_onsets(x) == k * count_onsets(x)) by (nonlinear_arith)
            requires
                k == km + 1,
        ;
        if km == 0 {
            assert(repeat(x, km) =~= Seq::<bool>::empty());
            assert(repeat(x, k) =~= x);
        }
    } else {
        assert(repeat(x, k) =~= Seq::<bool>::empty());
        assert(count_onsets(repeat(x, k)) == 0);
        assert(k * count_onsets(x) == 0 && k * x.len() == 0) by (nonlinear_arith)
            requires
                k == 0,
        ;
    }
}

proof fn lemma_euclid_fold_shape(x: Seq<bool>, k: nat, y: Seq<bool>, m: nat)
    ensures
        euclid_fold(x, k, y, m).len() == k * x.len() + m * y.len(),
        count_onsets(euclid_fold(x, k, y, m)) == k * count_onsets(x) + m * count_onsets(y),
        k > 0 && x.len() > 0 ==> euclid_fold(x, k, y, m)[0] == x[0],
    decreases k + m,
{
    if m <= 1 || k == 0 {
        lemma_repeat_shape(x, k);
        lemma_repeat_shape(y, m);
        lemma_count_concat(repeat(x, k), repeat(y, m));
    } else if k > m {
        let km = (k - m) as nat;
        lemma_euclid_fold_shape(x + y, m, x, km);
        lemma_count_concat(x, y);
        assert(m * (x.len() + y.len()) + km * x.len() == k * x.len() + m * y.len()) by (nonlinear_arith)
            requires
                km == k - m,
        ;
        assert(m * (count_onsets(x) + count_onsets(y)) + km * count_onsets(x) == k * count_onsets(x)
            + m * count_onsets(y)) by (nonlinear_arith)
            requires
                km == k - m,
        ;
    } else {
        let mm = (m - k) as nat;
        lemma_euclid_fold_shape(x + y, k, y, mm);
        lemma_count_concat(x, y);
        assert(k * (x.len() + y.len()) + mm * y.len() == k * x.len() + m * y.len()) by (nonlinear_arith)
            requires
                mm == m - k,
        ;
        assert(k * (count_onsets(x) + count_onsets(y)) + mm * count_onsets(y) == k * count_onsets(x)
            + m * count_onsets(y)) by (nonlinear_arith)
            requires
                mm == m - k,
        ;
    }
}

/// Bjorklund's rhythm always has `steps` slots, exactly `pulses` of them
/// onsets, and starts on an onset.
pub proof fn lemma_bjorklund_places_exactly_pulses_onsets(pulses: nat, steps: nat)
    requires
        1 <= pulses <= steps,
    ensures
        spec_bjorklund(pulses, steps).len() == steps,
        count_onsets(spec_bjorklund(pulses, steps)) == pulses,
        spec_bjorklund(pulses, steps)[0],
{
    assert(seq![true].len() == 1 && seq![false].len() == 1);
    if pulses == steps {
        lemma_repeat_shape(seq![true], steps);
        assert(count_onsets(seq![true]) == 1) by {
            assert(seq![true].drop_last() =~= Seq::<bool>::empty());
            assert(count_onsets(Seq::<bool>::empty()) == 0);
            assert(seq![true].last());
        }
        assert(steps * 1 == steps) by (nonlinear_arith);
    } else {
        lemma_euclid_fold_shape(seq![true], pulses, seq![false], (steps - pulses) as nat);
        assert(count_onsets(seq![true]) == 1) by {
            assert(seq![true].drop_last() =~= Seq::<bool>::empty());
            assert(count_onsets(Seq::<bool>::empty()) == 0);
            assert(seq![true].last());
        }
        assert(count_onsets(seq![false]) == 0) by {
            assert(seq![false].drop_last() =~= Seq::<bool>::empty());
            assert(count_onsets(Seq::<bool>::empty()) == 0);
            assert(!seq![false].last());
        }
        let m = (steps - pulses) as nat;
        assert(pulses * 1 + m * 1 == steps && pulses * 1 + m * 0 == pulses) by (nonlinear_arith)
            requires
                m == steps - pulses,
        ;
    }
}

/// The lengths of the onset segments of a pattern that starts on an
/// onset: each onset together with the silent slots after it. Cyclically,
/// these are the gaps from each onset to the next.
pub open spec fn segments(p: Seq<bool>) -> Seq<int>
    decreases p.len(),
{
    if p.len() == 0 {
        Seq::<int>::empty()
    } else {
        let s = segments(p.drop_last());
        if p.last() {
            s.push(1)
        } else if s.len() == 0 {
            s
        } else {
            s.update(s.len() - 1, s.last() + 1)
        }
    }
}

/// Every segment length is `g` or `g + 1`.
pub open spec fn within(segs: Seq<int>, g: int) -> bool {
    forall|i: int| 0 <= i < segs.len() ==> segs[i] == g || segs[i] == g + 1
}

proof fn lemma_segments_concat(a: Seq<bool>, b: Seq<bool>)
    requires
        b.len() > 0,
        b[0],
    ensures
        segments(a + b) == segments(a) + segments(b),
        segments(b).len() > 0,
    decreases b.len(),
{
    let bd = b.drop_last();
    assert((a + b).drop_last() =~= a + bd);
    if bd.len() == 0 {
        assert(segments(bd) =~= Seq::<int>::empty());
        assert(segments(b) =~= seq![1]);
        assert(segments(a + b) =~= segments(a).push(1));
    } else {
        assert(bd[0]);
        lemma_segments_concat(a, bd);
        let sa = segments(a);
        let sb = segments(bd);
        if b.last() {
            assert(segments(a + b) =~= (sa + sb).push(1));
            assert(segments(a + b) =~= sa + sb.push(1));
        } else {
            assert(segments(a + b) =~= (sa + sb).update((sa + sb).len() - 1, (sa + sb).last() + 1));
            assert(segments(b) =~= sb.update(sb.len() - 1, sb.last() + 1));
            assert(segments(a + b) =~= sa + segments(b));
        }
    }
}

proof fn lemma_segments_trailing_rest(a: Seq<bool>)
    requires
        segments(a).len() > 0,
    ensures
        segments(a + seq![false]) == segments(a).update(segments(a).len() - 1, segments(a).last() + 1),
{
    assert((a + seq![false]).drop_last() =~= a);
}

proof fn lemma_segments_of_repeat(x: Seq<bool>, k: nat, g: int)
    requires
        x.len() > 0,
        x[0],
        within(segments(x), g),
    ensures
        within(segments(repeat(x, k)), g),
        k > 0 ==> segments(repeat(x, k)).len() > 0,
    decreases k,
{
    if k > 0 {
        lemma_segments_of_repeat(x, (k - 1) as nat, g);
        lemma_segments_concat(repeat(x, (k - 1) as nat), x);
    } else {
        assert(segments(repeat(x, k)) =~= Seq::<int>::empty());
    }
}

proof fn lemma_segments_of_repeat_single(x: Seq<bool>, k: nat)
    requires
        x.len() > 0,
        x[0],
        segments(x) == seq![x.len() as int],
    ensures
        segments(repeat(x, k)).len() == k,
        forall|i: int| 0 <= i < k ==> segments(repeat(x, k))[i] == x.len(),
    decreases k,
{
    if k > 0 {
        lemma_segments_of_repeat_single(x, (k - 1) as nat);
        lemma_segments_concat(repeat(x, (k - 1) as nat), x);
    } else {
        assert(segments(repeat(x, k)) =~= Seq::<int>::empty());
    }
}

/// Blocks `x` and `y` as Bjorklund's pairing leaves them: `x` starts on an
/// onset; either `y` is a single rest and `x` one onset followed by rests,
/// or `y` also starts on an onset and every segment of both is `g` or `g+1`.
spec fn fold_blocks_even(x: Seq<bool>, y: Seq<bool>, g: int) -> bool {
    &&& x.len() > 0
    &&& x[0]
    &&& {
        ||| (y == seq![false] && segments(x) == seq![x.len() as int])
        ||| (y.len() > 0 && y[0] && within(segments(x), g) && within(segments(y), g))
    }
}

proof fn lemma_within_concat(a: Seq<int>, b: Seq<int>, g: int)
    requires
        within(a, g),
        within(b, g),
    ensures
        within(a + b, g),
{
    assert forall|i: int| 0 <= i < (a + b).len() implies (a + b)[i] == g || (a + b)[i] == g + 1 by {
        if i < a.len() {
            assert((a + b)[i] == a[i]);
        } else {
            assert((a + b)[i] == b[i - a.len()]);
        }
    }
}

proof fn lemma_euclid_fold_even(x: Seq<bool>, k: nat, y: Seq<bool>, m: nat, g: int)
    requires
        k >= 1,
        fold_blocks_even(x, y, g),
    ensures
        exists|h: int| within(segments(euclid_fold(x, k, y, m)), h),
    decreases k + m,
{
    let e = euclid_fold(x, k, y, m);
    if m <= 1 {
        let r = repeat(x, k);
        assert(e == r + repeat(y, m));
        assert(repeat(y, 0) =~= Seq::<bool>::empty());
        if y == seq![false] {
            let a = x.len() as int;
            assert(within(segments(x), a));
            lemma_segments_of_repeat(x, k, a);
            if m == 0 {
                assert(e =~= r);
                assert(within(segments(e), a));
            } else {
                assert(repeat(y, 1) =~= seq![false]);
                assert(e =~= r + seq![false]);
                lemma_segments_of_repeat_single(x, k);
                lemma_segments_trailing_rest(r);
                assert(within(segments(e), a));
            }
        } else {
            lemma_segments_of_repeat(x, k, g);
            if m == 0 {
                assert(e =~= r);
                assert(within(segments(e), g));
            } else {
                assert(repeat(y, 1) =~= y);
                assert(e =~= r + y);
                lemma_segments_concat(r, y);
                lemma_within_concat(segments(r), segments(y), g);
                assert(within(segments(e), g));
            }
        }
    } else {
        let xy = x + y;
        if y == seq![false] {
            lemma_segments_trailing_rest(x);
            assert(segments(xy) =~= seq![xy.len() as int]);
            if k > m {
                assert(e == euclid_fold(xy, m, x, (k - m) as nat));
                assert(within(segments(xy), x.len() as int));
                assert(within(segments(x), x.len() as int));
                lemma_euclid_fold_even(xy, m, x, (k - m) as nat, x.len() as int);
            } else {
                assert(e == euclid_fold(xy, k, y, (m - k) as nat));
                lemma_euclid_fold_even(xy, k, y, (m - k) as nat, g);
            }
        } else {
            lemma_segments_concat(x, y);
            lemma_within_concat(segments(x), segments(y), g);
            assert(within(segments(xy), g));
            if k > m {
                assert(e == euclid_fold(xy, m, x, (k - m) as nat));
                lemma_euclid_fold_even(xy, m, x, (k - m) as nat, g);
            } else {
                assert(e == euclid_fold(xy, k, y, (m - k) as nat));
                lemma_euclid_fold_even(xy, k, y, (m - k) as nat, g);
            }
        }
    }
}

/// The sum of a sequence of integers.
pub open spec fn sum_ints(s: Seq<int>) -> int
    decreases s.len(),
{
    if s.len() == 0 {
        0
    } else {
        sum_ints(s.drop_last()) + s.last()
    }
}

/// A pattern that starts on an onset has one segment per onset, and its
/// segments add up to its length.
proof fn lemma_segments_count_and_sum(p: Seq<bool>)
    requires
        p.len() > 0,
        p[0],
    ensures
        segments(p).len() == count_onsets(p),
        sum_ints(segments(p)) == p.len(),
        segments(p).len() > 0,
    decreases p.len(),
{
    let d = p.drop_last();
    if p.len() == 1 {
        assert(d =~= Seq::<bool>::empty());
        assert(segments(d) =~= Seq::<int>::empty());
        assert(count_onsets(d) == 0);
        assert(p.last());
        assert(segments(p) =~= seq![1int]);
        assert(segments(p).drop_last() =~= Seq::<int>::empty());
        assert(sum_ints(Seq::<int>::empty()) == 0);
        assert(sum_ints(segments(p)) == sum_ints(segments(p).drop_last()) + segments(p).last());
    } else {
        assert(d[0]);
        lemma_segments_count_and_sum(d);
        let sd = segments(d);
        if p.last() {
            assert(segments(p) == sd.push(1));
            assert(sd.push(1).drop_last() =~= sd);
            assert(sum_ints(sd.push(1)) == sum_ints(sd) + 1);
        } else {
            let u = sd.update(sd.len() - 1, sd.last() + 1);
            assert(segments(p) == u);
            assert(u.drop_last() =~= sd.drop_last());
            assert(sum_ints(sd) == sum_ints(sd.drop_last()) + sd.last());
            assert(sum_ints(u) == sum_ints(u.drop_last()) + u.last());
        }
    }
}

/// Segments that are all `g` or `g + 1` add up to between `n * g` and
/// `n * (g + 1)`, strictly less than the latter when one of them is `g`.
proof fn lemma_within_sum_bounds(s: Seq<int>, g: int)
    requires
        within(s, g),
    ensures
        s.len() * g <= sum_ints(s) <= s.len() * (g + 1),
        (exists|i: int| 0 <= i < s.len() && s[i] == g) ==> sum_ints(s) < s.len() * (g + 1),
    decreases s.len(),
{
    if s.len() > 0 {
        let d = s.drop_last();
        assert(within(d, g)) by {
            assert forall|i: int| 0 <= i < d.len() implies d[i] == g || d[i] == g + 1 by {
                assert(d[i] == s[i]);
            }
        }
        lemma_within_sum_bounds(d, g);
        assert(s.last() == g || s.last() == g + 1);
        assert(d.len() * g + g == s.len() * g && d.len() * (g + 1) + (g + 1) == s.len() * (g + 1))
            by (nonlinear_arith)
            requires
                s.len() == d.len() + 1,
        ;
        if exists|i: int| 0 <= i < s.len() && s[i] == g {
            let i = choose|i: int| 0 <= i < s.len() && s[i] == g;
            if i < d.len() {
                assert(d[i] == g);
            }
        }
    }
}

/// Bjorklund's rhythm spreads its onsets as evenly as possible: one gap per
/// onset, from each onset to the next (the last one wrapping around to
/// the first), the gaps adding up to `steps`, and each of them
/// `steps / pulses` or one slot more.
pub proof fn lemma_bjorklund_spreads_onsets_evenly(pulses: nat, steps: nat)
    requires
        1 <= pulses <= steps,
    ensures
        segments(spec_bjorklund(pulses, steps)).len() == pulses,
        sum_ints(segments(spec_bjorklund(pulses, steps))) == steps,
        within(segments(spec_bjorklund(pulses, steps)), steps as int / pulses as int),
{
    let p = spec_bjorklund(pulses, steps);
    lemma_bjorklund_places_exactly_pulses_onsets(pulses, steps);
    lemma_segments_count_and_sum(p);
    lemma_bjorklund_gaps_within_some_g(pulses, steps);
    let segs = segments(p);
    let g = choose|g: int| within(segs, g);
    lemma_within_sum_bounds(segs, g);
    let n = pulses as int;
    let total = steps as int;
    assert(segs.len() == n);
    assert(n * g == g * n && n * (g + 1) == g * n + n) by (nonlinear_arith);
    if exists|i: int| 0 <= i < segs.len() && segs[i] == g {
        vstd::arithmetic::div_mod::lemma_fundamental_div_mod_converse(total, n, g, total - g * n);
    } else {
        assert forall|i: int| 0 <= i < segs.len() implies segs[i] == g + 1 || segs[i] == g + 2 by {
            assert(segs[i] == g || segs[i] == g + 1);
        }
        assert(within(segs, g + 1));
        lemma_within_sum_bounds(segs, g + 1);
        assert(n * (g + 1) == (g + 1) * n && n * (g + 2) == (g + 1) * n + n) by (nonlinear_arith);
        vstd::arithmetic::div_mod::lemma_fundamental_div_mod_converse(total, n, g + 1, 0);
    }
}

/// Bjorklund's gaps are all `g` or `g + 1`, for some `g`.
proof fn lemma_bjorklund_gaps_within_some_g(pulses: nat, steps: nat)
    requires
        1 <= pulses <= steps,
    ensures
        exists|g: int| within(segments(spec_bjorklund(pulses, steps)), g),
{
    assert(segments(seq![true]) =~= seq![1]) by {
        assert(seq![true].drop_last() =~= Seq::<bool>::empty());
        assert(segments(Seq::<bool>::empty()) =~= Seq::<int>::empty());
        assert(seq![true].last());
        assert(Seq::<int>::empty().push(1) =~= seq![1]);
    }
    assert(within(segments(seq![true]), 1));
    if pulses == steps {
        lemma_segments_of_repeat(seq![true], steps, 1);
        assert(within(segments(spec_bjorklund(pulses, steps)), 1));
    } else {
        let rests = (steps - pulses) as nat;
        assert(fold_blocks_even(seq![true], seq![false], 1));
        lemma_euclid_fold_even(seq![true], pulses, seq![false], rests, 1);
        let h = choose|h: int| within(segments(euclid_fold(seq![true], pulses, seq![false], rests)), h);
        assert(spec_bjorklund(pulses, steps) == euclid_fold(seq![true], pulses, seq![false], rests));
        assert(within(segments(spec_bjorklund(pulses, steps)), h));
    }
}

fn concat(x: &Vec<bool>, y: &Vec<bool>) -> (r: Vec<bool>)
    requires
        x@.len() + y@.len() <= usize::MAX,
    ensures
        r@ == x@ + y@,
{
    let mut r = x.clone();
    let mut i: usize = 0;
    while i < y.len()
        invariant
            i <= y@.len(),
            r@ == x@ + y@.take(i as int),
            x@.len() + y@.len() <= usize::MAX,
        decreases y@.len() - i,
    {
        r.push(y[i]);
        assert(y@.take(i + 1) =~= y@.take(i as int).push(y@[i as int]));
        i = i + 1;
    }
    assert(y@.take(i as int) =~= y@);
    r
}

fn append_repeated(out: &mut Vec<bool>, x: &Vec<bool>, k: usize)
    requires
        old(out)@.len() + k * x@.len() <= usize::MAX,
    ensures
        final(out)@ == old(out)@ + repeat(x@, k as nat),
{
    let ghost start = out@;
    let mut j: usize = 0;
    while j < k
        invariant
            j <= k,
            out@ == start + repeat(x@, j as nat),
            start.len() + k * x@.len() <= usize::MAX,
        decreases k - j,
    {
        proof {
            lemma_repeat_shape(x@, j as nat);
            assert(j * x@.len() + x@.len() <= k * x@.len()) by (nonlinear_arith)
                requires
                    j < k,
            ;
        }
        let mut i: usize = 0;
        let ghost before = out@;
        while i < x.len()
            invariant
                i <= x@.len(),
                out@ == before + x@.take(i as int),
                before.len() + x@.len() <= usize::MAX,
            decreases x@.len() - i,
        {
            out.push(x[i]);
            assert(x@.take(i + 1) =~= x@.take(i as int).push(x@[i as int]));
            i = i + 1;
        }
        assert(x@.take(i as int) =~= x@);
        assert(start + repeat(x@, (j + 1) as nat) =~= start + repeat(x@, j as nat) + x@);
        j = j + 1;
    }
}

/// Bjorklund's algorithm: distributes `pulses` onsets as evenly as
/// possible across `steps` slots. Returns one `bool` per slot, `true`
/// where an onset falls.
pub fn bjorklund(pulses: usize, steps: usize) -> (pattern: Vec<bool>)
    requires
        1 <= pulses <= steps,
    ensures
        pattern@ == spec_bjorklund(pulses as nat, steps as nat),
        pattern@.len() == steps,
        count_onsets(pattern@) == pulses,
        pattern@[0],
{
    proof {
        lemma_bjorklund_places_exactly_pulses_onsets(pulses as nat, steps as nat);
    }
    let mut x: Vec<bool> = vec![true];
    assert(x@ =~= seq![true]);
    let mut out: Vec<bool> = Vec::new();
    if pulses == steps {
        append_repeated(&mut out, &x, steps);
        assert(out@ =~= spec_bjorklund(pulses as nat, steps as nat));
        return out;
    }
    let mut k: usize = pulses;
    let mut y: Vec<bool> = vec![false];
    assert(y@ =~= seq![false]);
    let mut m: usize = steps - pulses;
    while m > 1
        invariant
            1 <= k,
            k * x@.len() + m * y@.len() == steps,
            1 <= x@.len(),
            1 <= y@.len(),
            euclid_fold(x@, k as nat, y@, m as nat) == spec_bjorklund(pulses as nat, steps as nat),
        decreases k + m,
    {
        assert(x@.len() + y@.len() <= k * x@.len() + m * y@.len()) by (nonlinear_arith)
            requires
                1 <= k,
                1 <= m,
        ;
        let xy = concat(&x, &y);
        if k > m {
            let rest = k - m;
            y = x;
            x = xy;
            assert(m * (x@.len()) + rest * y@.len() == steps) by (nonlinear_arith)
                requires
                    x@.len() == y@.len() + (xy@.len() - y@.len()),
                    k * y@.len() + m * (xy@.len() - y@.len()) == steps,
                    rest == k - m,
            ;
            k = m;
            m = rest;
        } else {
            let rest = m - k;
            x = xy;
            assert(k * x@.len() + rest * y@.len() == steps) by (nonlinear_arith)
                requires
                    x@.len() == (xy@.len() - y@.len()) + y@.len(),
                    k * (xy@.len() - y@.len()) + m * y@.len() == steps,
                    rest == m - k,
            ;
            m = rest;
        }
    }
    proof {
        assert(k * x@.len() <= steps) by (nonlinear_arith)
            requires
                k * x@.len() + m * y@.len() == steps,
                m * y@.len() >= 0,
        ;
        assert(m * y@.len() >= 0) by (nonlinear_arith);
    }
    append_repeated(&mut out, &x, k);
    proof {
        lemma_repeat_shape(x@, k as nat);
    }
    append_repeated(&mut out, &y, m);
    assert(out@ =~= euclid_fold(x@, k as nat, y@, m as nat));
    out
}

/// The slots of `p` that hold an onset, ascending.
pub open spec fn onset_positions(p: Seq<bool>) -> Seq<int>
    decreases p.len(),
{
    if p.len() == 0 {
        Seq::<int>::empty()
    } else if p.last() {
        onset_positions(p.drop_last()).push(p.len() - 1)
    } else {
        onset_positions(p.drop_last())
    }
}

/// The onset-to-onset gap after each onset, wrapping from the last onset
/// around to the first one of the next cycle of `steps` slots.
pub open spec fn gaps(onsets: Seq<int>, steps: int) -> Seq<int> {
    Seq::new(
        onsets.len(),
        |i: int|
            if i + 1 < onsets.len() {
                onsets[i + 1] - onsets[i]
            } else {
                steps - onsets[i] + onsets[0]
            },
    )
}

proof fn lemma_onset_positions(p: Seq<bool>)
    ensures
        onset_positions(p).len() == count_onsets(p),
        forall|i: int, j: int|
            0 <= i < j < onset_positions(p).len() ==> onset_positions(p)[i] < onset_positions(p)[j],
        forall|i: int|
            0 <= i < onset_positions(p).len() ==> 0 <= #[trigger] onset_positions(p)[i] < p.len(),
        forall|i: int| 0 <= i < onset_positions(p).len() ==> p[#[trigger] onset_positions(p)[i]],
        p.len() > 0 && p[0] ==> onset_positions(p).len() > 0 && onset_positions(p)[0] == 0,
    decreases p.len(),
{
    if p.len() > 0 {
        let d = p.drop_last();
        lemma_onset_positions(d);
        assert forall|i: int| 0 <= i < onset_positions(d).len() implies p[
            #[trigger] onset_positions(d)[i]] by {
            assert(d[onset_positions(d)[i]] == p[onset_positions(d)[i]]);
        }
        if p.len() > 1 && p[0] {
            assert(d[0]);
        }
        if p.len() == 1 && p[0] {
            assert(onset_positions(d) =~= Seq::<int>::empty());
        }
    }
}

/// A Euclidean rhythm: `pulses` onsets spread over `steps` slots, one
/// time unit each, reused cyclically. Event `i` falls at the
/// `i mod pulses`-th onset of cycle `i / pulses`, and lasts until the
/// next onset.
pub struct Euclidean {
    steps: usize,
    onsets: Vec<usize>,
    durations: Vec<usize>,
}

impl Euclidean {
    pub closed spec fn steps(&self) -> int {
        self.steps as int
    }

    /// The onset slots within one cycle, ascending.
    pub closed spec fn onsets(&self) -> Seq<int> {
        self.onsets@.map_values(|o: usize| o as int)
    }

    /// The gap after each onset of the cycle.
    pub closed spec fn durations(&self) -> Seq<int> {
        self.durations@.map_values(|d: usize| d as int)
    }

    /// The onsets are Bjorklund's, their gaps are `durations`, and there
    /// is at least one.
    pub open spec fn wf(&self) -> bool {
        &&& self.onsets().len() >= 1
        &&& self.durations() == gaps(self.onsets(), self.steps())
        &&& forall|i: int, j: int|
            0 <= i < j < self.onsets().len() ==> self.onsets()[i] < self.onsets()[j]
        &&& forall|i: int| 0 <= i < self.onsets().len() ==> 0 <= #[trigger] self.onsets()[i] < self.steps()
    }

    /// How many onsets each cycle holds.
    pub fn pulses(&self) -> (n: usize)
        ensures
            n == self.onsets().len(),
    {
        self.onsets.len()
    }

    /// How many slots each cycle spans.
    pub fn step_count(&self) -> (n: usize)
        ensures
            n == self.steps(),
    {
        self.steps
    }

    /// When event `i` starts.
    pub open spec fn event_onset(&self, i: nat) -> int {
        (i / self.onsets().len()) as int * self.steps() + self.onsets()[(i % self.onsets().len()) as int]
    }

    /// How long event `i` lasts.
    pub open spec fn event_duration(&self, i: nat) -> int {
        self.durations()[(i % self.onsets().len()) as int]
    }

    pub fn new(pulses: usize, steps: usize) -> (e: Euclidean)
        requires
            1 <= pulses <= steps,
        ensures
            e.wf(),
            e.steps() == steps,
            e.onsets() == onset_positions(spec_bjorklund(pulses as nat, steps as nat)),
            e.onsets().len() == pulses,
            e.onsets()[0] == 0,
            e.event_onset(0) == 0,
    {
        let pattern = bjorklund(pulses, steps);
        proof {
            lemma_onset_positions(pattern@);
        }
        let ghost pos = onset_positions(pattern@);
        let mut onsets: Vec<usize> = Vec::new();
        let mut i: usize = 0;
        while i < steps
            invariant
                i <= steps,
                pattern@.len() == steps,
                onsets@.map_values(|o: usize| o as int) == onset_positions(pattern@.take(i as int)),
            decreases steps - i,
        {
            assert(pattern@.take(i + 1).drop_last() =~= pattern@.take(i as int));
            if pattern[i] {
                onsets.push(i);
                assert(onsets@.map_values(|o: usize| o as int) =~= onset_positions(
                    pattern@.take(i as int),
                ).push(i as int));
            }
            i = i + 1;
        }
        assert(pattern@.take(steps as int) =~= pattern@);
        assert(onsets@.map_values(|o: usize| o as int) == pos);
        let n = onsets.len();
        assert(onsets@[0] as int == pos[0]);
        let ghost og = onsets@.map_values(|o: usize| o as int);
        let mut durations: Vec<usize> = Vec::new();
        let mut j: usize = 0;
        while j + 1 < n
            invariant
                j < n,
                n == onsets@.len(),
                og == onsets@.map_values(|o: usize| o as int),
                og == pos,
                forall|a: int, b: int| 0 <= a < b < pos.len() ==> pos[a] < pos[b],
                durations@.len() == j,
                forall|k: int| 0 <= k < j ==> durations@[k] as int == gaps(og, steps as int)[k],
            decreases n - j,
        {
            assert(og[j as int] < og[j + 1]);
            durations.push(onsets[j + 1] - onsets[j]);
            j = j + 1;
        }
        assert(og[n - 1] < steps);
        durations.push(steps - onsets[n - 1] + onsets[0]);
        let e = Euclidean { steps, onsets, durations };
        assert(e.durations() =~= gaps(e.onsets(), steps as int));
        proof {
            let k = e.onsets().len();
            vstd::arithmetic::div_mod::lemma_small_mod(0nat, k);
            vstd::arithmetic::div_mod::lemma_basic_div(0int, k as int);
        }
        e
    }

    /// The start of event `i`'s cycle, counted in slots, stays within
    /// `usize`.
    pub open spec fn fits(&self, i: nat) -> bool {
        (i / self.onsets().len()) as int * self.steps() <= usize::MAX
    }

    /// Whether the start of event `event_index`'s cycle stays within
    /// `usize`.
    pub fn fits_index(&self, event_index: usize) -> (b: bool)
        requires
            self.wf(),
        ensures
            b == self.fits(event_index as nat),
    {
        assert(self.onsets().len() == self.onsets@.len());
        let cycle = event_index / self.onsets.len();
        cycle.checked_mul(self.steps).is_some()
    }

    /// Event `event_index`'s onset and duration, in slots. The onset is a
    /// cycle start within `usize` plus a slot within the cycle, so it is
    /// returned as a `u128`.
    pub fn timing(&self, event_index: usize) -> (t: (u128, usize))
        requires
            self.wf(),
            self.fits(event_index as nat),
        ensures
            t.0 == self.event_onset(event_index as nat),
            t.1 == self.event_duration(event_index as nat),
    {
        let pulses = self.onsets.len();
        let cycle = event_index / pulses;
        let slot = event_index % pulses;
        assert(self.onsets()[slot as int] == self.onsets@[slot as int] as int);
        let start = cycle * self.steps;
        let onset = start as u128 + self.onsets[slot] as u128;
        assert(self.durations().len() == self.durations@.len());
        assert(self.durations()[slot as int] == self.durations@[slot as int] as int);
        (onset, self.durations[slot])
    }
}

/// Each Euclidean event lasts exactly until the next one starts, so
/// onsets grow monotonically with the event index.
pub proof fn lemma_euclidean_events_chain(e: &Euclidean, i: nat)
    requires
        e.wf(),
    ensures
        e.event_onset(i) + e.event_duration(i) == e.event_onset(i + 1),
        e.event_duration(i) > 0,
{
    let n = e.onsets().len() as int;
    let s = e.steps();
    let ii = i as int;
    let c: int = ii / n;
    let k: int = ii % n;
    vstd::arithmetic::div_mod::lemma_fundamental_div_mod(ii, n);
    vstd::arithmetic::div_mod::lemma_fundamental_div_mod(ii + 1, n);
    if k + 1 < n {
        assert((ii + 1) / n == c && (ii + 1) % n == k + 1) by {
            vstd::arithmetic::div_mod::lemma_fundamental_div_mod_converse(ii + 1, n, c, k + 1);
        }
    } else {
        assert((c + 1) * n == c * n + n) by (nonlinear_arith);
        assert((ii + 1) / n == c + 1 && (ii + 1) % n == 0) by {
            vstd::arithmetic::div_mod::lemma_fundamental_div_mod_converse(ii + 1, n, c + 1, 0);
        }
        assert((c + 1) * s == c * s + s) by (nonlinear_arith);
        assert(k == n - 1);
        assert(e.onsets()[0] <= e.onsets()[k]) by {
            if k > 0 {
                assert(e.onsets()[0] < e.onsets()[k]);
            }
        }
    }
}

/// A Euclidean rhythm repeats every cycle: `pulses` events later, each
/// event falls one cycle of `steps` slots later, with the same duration.
pub proof fn lemma_euclidean_repeats_every_cycle(e: &Euclidean, i: nat)
    requires
        e.wf(),
    ensures
        e.event_onset(i + e.onsets().len()) == e.event_onset(i) + e.steps(),
        e.event_duration(i + e.onsets().len()) == e.event_duration(i),
{
    let n = e.onsets().len() as int;
    let ii = i as int;
    vstd::arithmetic::div_mod::lemma_fundamental_div_mod(ii, n);
    assert((ii + n) / n == ii / n + 1 && (ii + n) % n == ii % n) by {
        assert(n * (ii / n + 1) == n * (ii / n) + n) by (nonlinear_arith);
        vstd::arithmetic::div_mod::lemma_fundamental_div_mod_converse(ii + n, n, ii / n + 1, ii % n);
    }
    assert((ii / n + 1) * e.steps() == (ii / n) * e.steps() + e.steps()) by (nonlinear_arith);
}

/// The last `window` palette choices (all of them when fewer).
pub open spec fn recent_choices(chosen: Seq<usize>, window: nat) -> Seq<usize> {
    let start = if chosen.len() >= window {
        chosen.len() - window
    } else {
        0
    };
    chosen.subrange(start as int, chosen.len() as int)
}

/// The palette indices below `n` that `tabu` does not hold, ascending.
pub open spec fn free_indices(n: nat, tabu: Seq<usize>) -> Seq<usize>
    decreases n,
{
    if n == 0 {
        Seq::<usize>::empty()
    } else if tabu.contains((n - 1) as usize) {
        free_indices((n - 1) as nat, tabu)
    } else {
        free_indices((n - 1) as nat, tabu).push((n - 1) as usize)
    }
}

/// The position of the last occurrence of `v` in `s`, or 0 when absent.
pub open spec fn last_index_of(s: Seq<usize>, v: usize) -> int
    decreases s.len(),
{
    if s.len() == 0 {
        0
    } else if s.last() == v {
        s.len() - 1
    } else {
        last_index_of(s.drop_last(), v)
    }
}

/// The first index below `n` whose last use in `tabu` lies furthest back.
pub open spec fn least_recent_index(n: nat, tabu: Seq<usize>) -> nat
    decreases n,
{
    if n <= 1 {
        0
    } else {
        let best = least_recent_index((n - 1) as nat, tabu);
        if last_index_of(tabu, (n - 1) as usize) < last_index_of(tabu, best as usize) {
            (n - 1) as nat
        } else {
            best
        }
    }
}

/// How many indices below `n` `tabu` holds.
pub open spec fn blocked(n: nat, tabu: Seq<usize>) -> nat
    decreases n,
{
    if n == 0 {
        0
    } else {
        blocked((n - 1) as nat, tabu) + if tabu.contains((n - 1) as usize) {
            1nat
        } else {
            0nat
        }
    }
}

proof fn lemma_free_plus_blocked(n: nat, tabu: Seq<usize>)
    requires
        n <= usize::MAX + 1,
    ensures
        free_indices(n, tabu).len() + blocked(n, tabu) == n,
    decreases n,
{
    if n > 0 {
        lemma_free_plus_blocked((n - 1) as nat, tabu);
    }
}

proof fn lemma_blocked_drop_last(n: nat, tabu: Seq<usize>)
    requires
        tabu.len() > 0,
        n <= usize::MAX + 1,
    ensures
        blocked(n, tabu) <= blocked(n, tabu.drop_last()) + if tabu.last() < n {
            1nat
        } else {
            0nat
        },
    decreases n,
{
    if n > 0 {
        lemma_blocked_drop_last((n - 1) as nat, tabu);
        let v = (n - 1) as usize;
        if tabu.contains(v) && !tabu.drop_last().contains(v) {
            let i = choose|i: int| 0 <= i < tabu.len() && tabu[i] == v;
            if i < tabu.len() - 1 {
                assert(tabu.drop_last()[i] == v);
            }
        }
    }
}

proof fn lemma_blocked_at_most_tabu(n: nat, tabu: Seq<usize>)
    requires
        n <= usize::MAX + 1,
    ensures
        blocked(n, tabu) <= tabu.len(),
    decreases tabu.len(),
{
    if tabu.len() == 0 {
        lemma_blocked_none(n, tabu);
    } else {
        lemma_blocked_drop_last(n, tabu);
        lemma_blocked_at_most_tabu(n, tabu.drop_last());
    }
}

proof fn lemma_blocked_none(n: nat, tabu: Seq<usize>)
    requires
        tabu.len() == 0,
    ensures
        blocked(n, tabu) == 0,
    decreases n,
{
    if n > 0 {
        lemma_blocked_none((n - 1) as nat, tabu);
    }
}

proof fn lemma_free_indices(n: nat, tabu: Seq<usize>)
    requires
        n <= usize::MAX + 1,
    ensures
        forall|i: int|
            0 <= i < free_indices(n, tabu).len() ==> (#[trigger] free_indices(n, tabu)[i] < n
                && !tabu.contains(free_indices(n, tabu)[i])),
    decreases n,
{
    if n > 0 {
        let prev = free_indices((n - 1) as nat, tabu);
        lemma_free_indices((n - 1) as nat, tabu);
        assert forall|i: int| 0 <= i < free_indices(n, tabu).len() implies (#[trigger] free_indices(
            n,
            tabu,
        )[i] < n && !tabu.contains(free_indices(n, tabu)[i])) by {
            if i < prev.len() {
                assert(free_indices(n, tabu)[i] == prev[i]);
            }
        }
    }
}

proof fn lemma_least_recent_index_bound(n: nat, tabu: Seq<usize>)
    requires
        n >= 1,
    ensures
        least_recent_index(n, tabu) < n,
    decreases n,
{
    if n > 1 {
        lemma_least_recent_index_bound((n - 1) as nat, tabu);
    }
}

/// A palette larger than the tabu window always leaves a free choice, so
/// a duration is never reused within the window.
pub proof fn lemma_larger_palette_never_repeats_within_the_window(
    palette_len: nat,
    chosen: Seq<usize>,
    window: nat,
)
    requires
        window < palette_len <= usize::MAX,
    ensures
        free_indices(palette_len, recent_choices(chosen, window)).len() > 0,
{
    let tabu = recent_choices(chosen, window);
    lemma_free_plus_blocked(palette_len, tabu);
    lemma_blocked_at_most_tabu(palette_len, tabu);
}

/// A tabu process over a palette of `palette_len` durations: never reuse
/// any of the last `window` choices, relaxing to the least-recently-used
/// one once the whole palette is tabu. Choices are palette indices.
pub struct WindowedDurations {
    rng: StdRng,
    window: usize,
    palette_len: usize,
    chosen: Vec<usize>,
}

impl WindowedDurations {
    pub closed spec fn window(&self) -> nat {
        self.window as nat
    }

    pub closed spec fn palette_len(&self) -> nat {
        self.palette_len as nat
    }

    /// Every palette index chosen so far, oldest first.
    pub closed spec fn chosen(&self) -> Seq<usize> {
        self.chosen@
    }

    /// How many recent choices are tabu.
    pub fn window_len(&self) -> (w: usize)
        ensures
            w == self.window(),
    {
        self.window
    }

    /// How many palette entries this chooses among.
    pub fn palette_size(&self) -> (n: usize)
        ensures
            n == self.palette_len(),
    {
        self.palette_len
    }

    /// How many choices have been made so far.
    pub fn chosen_count(&self) -> (n: usize)
        ensures
            n == self.chosen().len(),
    {
        self.chosen.len()
    }

    pub fn new(window: usize, palette_len: usize) -> (w: WindowedDurations)
        requires
            palette_len > 0,
        ensures
            w.window() == window,
            w.palette_len() == palette_len,
            w.chosen() == Seq::<usize>::empty(),
    {
        Self::with_rng(window, palette_len, fresh_rng())
    }

    pub fn with_rng(window: usize, palette_len: usize, rng: StdRng) -> (w: WindowedDurations)
        requires
            palette_len > 0,
        ensures
            w.window() == window,
            w.palette_len() == palette_len,
            w.chosen() == Seq::<usize>::empty(),
    {
        WindowedDurations { rng, window, palette_len, chosen: Vec::new() }
    }

    /// Chooses the palette index for event `event_index`; events must be
    /// asked for in order, starting at 0.
    pub fn next_index(&mut self, event_index: usize) -> (i: usize)
        requires
            old(self).palette_len() > 0,
            event_index == old(self).chosen().len(),
        ensures
            i < old(self).palette_len(),
            final(self).chosen() == old(self).chosen().push(i),
            final(self).window() == old(self).window(),
            final(self).palette_len() == old(self).palette_len(),
            free_indices(old(self).palette_len(), recent_choices(old(self).chosen(), old(self).window())).len()
                > 0 ==> {
                &&& free_indices(
                    old(self).palette_len(),
                    recent_choices(old(self).chosen(), old(self).window()),
                ).contains(i)
                &&& !recent_choices(old(self).chosen(), old(self).window()).contains(i)
            },
            free_indices(old(self).palette_len(), recent_choices(old(self).chosen(), old(self).window())).len()
                == 0 ==> i == least_recent_index(
                old(self).palette_len(),
                recent_choices(old(self).chosen(), old(self).window()),
            ),
    {
        let len = self.chosen.len();
        let start = len.saturating_sub(self.window);
        let ghost tabu = recent_choices(self.chosen@, self.window as nat);
        assert(tabu == self.chosen@.subrange(start as int, len as int));
        let n = self.palette_len;
        proof {
            lemma_free_indices(n as nat, tabu);
        }
        let mut legal: Vec<usize> = Vec::new();
        let mut v: usize = 0;
        while v < n
            invariant
                v <= n,
                n == self.palette_len,
                start <= len == self.chosen@.len(),
                tabu == self.chosen@.subrange(start as int, len as int),
                legal@ == free_indices(v as nat, tabu),
            decreases n - v,
        {
            if !index_used_since(&self.chosen, start, v) {
                legal.push(v);
            }
            v = v + 1;
        }
        let i = if legal.len() == 0 {
            let mut best: usize = 0;
            let mut best_key = last_use_since(&self.chosen, start, 0);
            let mut w: usize = 1;
            while w < n
                invariant
                    1 <= w <= n,
                    n == self.palette_len,
                    start <= len == self.chosen@.len(),
                    tabu == self.chosen@.subrange(start as int, len as int),
                    best as nat == least_recent_index(w as nat, tabu),
                    best_key as int == last_index_of(tabu, best),
                decreases n - w,
            {
                let key = last_use_since(&self.chosen, start, w);
                if key < best_key {
                    best = w;
                    best_key = key;
                }
                w = w + 1;
            }
            proof {
                lemma_least_recent_index_bound(n as nat, tabu);
            }
            best
        } else {
            let k = random_below(&mut self.rng, legal.len());
            assert(free_indices(n as nat, tabu)[k as int] == legal@[k as int]);
            legal[k]
        };
        self.chosen.push(i);
        i
    }
}

fn index_used_since(chosen: &Vec<usize>, start: usize, v: usize) -> (b: bool)
    requires
        start <= chosen@.len(),
    ensures
        b == chosen@.subrange(start as int, chosen@.len() as int).contains(v),
{
    let ghost tabu = chosen@.subrange(start as int, chosen@.len() as int);
    let mut i = start;
    while i < chosen.len()
        invariant
            start <= i <= chosen@.len(),
            tabu == chosen@.subrange(start as int, chosen@.len() as int),
            forall|k: int| start <= k < i ==> chosen@[k] != v,
        decreases chosen@.len() - i,
    {
        if chosen[i] == v {
            assert(tabu[i - start] == v);
            return true;
        }
        i = i + 1;
    }
    assert forall|k: int| 0 <= k < tabu.len() implies tabu[k] != v by {
        assert(tabu[k] == chosen@[k + start]);
    }
    false
}

fn last_use_since(chosen: &Vec<usize>, start: usize, v: usize) -> (k: usize)
    requires
        start <= chosen@.len(),
    ensures
        k as int == last_index_of(chosen@.subrange(start as int, chosen@.len() as int), v),
{
    let mut pos: usize = 0;
    let mut i = start;
    while i < chosen.len()
        invariant
            start <= i <= chosen@.len(),
            pos as int == last_index_of(chosen@.subrange(start as int, i as int), v),
            pos <= i,
        decreases chosen@.len() - i,
    {
        assert(chosen@.subrange(start as int, i + 1).drop_last() =~= chosen@.subrange(
            start as int,
            i as int,
        ));
        if chosen[i] == v {
            pos = i - start;
        }
        i = i + 1;
    }
    pos
}

} // verus!
