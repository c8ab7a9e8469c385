//! Estimating the pitch of a voice.

use crate::float::binary32::Binary32;
use crate::float::laws::lemma_u64_is_finite;
use crate::float::model::{
    difference, from_int, mean, product, quotient, sum, total, truncated, Float, Format,
};
use crate::signal::single;
use crate::sorting::{lemma_same_things, sortable, sorted, sorting, Ranked};
use vstd::prelude::*;

verus! {

/// 70.0: the lowest pitch that is looked for, in hertz.
pub const MIN_FREQ: u32 = 0x428c_0000;

/// 400.0: the highest pitch that is looked for, in hertz.
pub const MAX_FREQ: u32 = 0x43c8_0000;

impl Ranked for Binary32 {
    open spec fn has_rank(self) -> bool {
        !self@.is_nan()
    }

    open spec fn ranked(self, other: Binary32) -> bool {
        self@.le(other@)
    }

    proof fn lemma_total(a: Binary32, b: Binary32) {
    }

    proof fn lemma_transitive(a: Binary32, b: Binary32, c: Binary32) {
    }

    fn may_precede(&self, other: &Binary32) -> (r: bool) {
        self.at_most(*other)
    }
}

/// The middle one of numbers in order; of an even number the upper of the two.
pub open spec fn middle(v: Seq<Binary32>) -> Option<Binary32> {
    if v.len() == 0 {
        None
    } else {
        Some(sorting(v)[v.len() as int / 2])
    }
}

/// The middle one of numbers in order; of an even number the upper of the two.
pub fn median(v: &Vec<Binary32>) -> (r: Option<Binary32>)
    requires
        sortable(v@),
    ensures
        r == middle(v@),
{
    if v.len() == 0 {
        return None;
    }
    let ordered: Vec<Binary32> = sorted(v);
    proof {
        lemma_same_things(ordered@, v@);
    }
    Some(ordered[ordered.len() / 2])
}

/// The lag of a frequency: how many samples a period takes.
pub open spec fn lag_of(sample_rate: u32, frequency: u32) -> nat {
    truncated(
        Format::Single,
        quotient(
            Format::Single,
            from_int(Format::Single, sample_rate as int),
            single(frequency),
        ),
        0,
        usize::MAX as int,
    ) as nat
}

/// Samples as single-precision numbers.
pub open spec fn as_numbers(window: Seq<i16>) -> Seq<Float> {
    window.map_values(|s: i16| from_int(Format::Single, s as int))
}

/// Samples without their mean.
pub open spec fn centered(window: Seq<i16>) -> Seq<Float> {
    let middle = mean(Format::Single, as_numbers(window));
    as_numbers(window).map_values(|x: Float| difference(Format::Single, x, middle))
}

/// How well the first `n` numbers agree with those that come `lag` later.
pub open spec fn correlation(xs: Seq<Float>, lag: nat, n: nat) -> Float
    decreases n,
{
    let s = Format::Single;
    if n == 0 {
        Float::zero()
    } else {
        sum(
            s,
            correlation(xs, lag, (n - 1) as nat),
            product(s, xs[n - 1], xs[(n - 1 + lag) as int]),
        )
    }
}

/// How well numbers agree with themselves, `lag` later.
pub open spec fn self_correlation(xs: Seq<Float>, lag: nat) -> Float {
    correlation(xs, lag, (xs.len() - lag) as nat)
}

/// Of the lags from `lo` on and below `hi`, the first that correlates better than all others, and
/// its correlation; zero and zero where none correlates positively.
pub open spec fn best_lag(xs: Seq<Float>, lo: nat, hi: nat) -> (nat, Float)
    decreases hi,
{
    if hi <= lo {
        (0, Float::zero())
    } else {
        let earlier = best_lag(xs, lo, (hi - 1) as nat);
        let here = self_correlation(xs, (hi - 1) as nat);
        if earlier.1.lt(here) {
            ((hi - 1) as nat, here)
        } else {
            earlier
        }
    }
}

/// The pitch that a window of samples suggests.
pub open spec fn suggested_pitch(window: Seq<i16>, sample_rate: u32) -> Option<Float> {
    let shortest = lag_of(sample_rate, MAX_FREQ);
    let longest = lag_of(sample_rate, MIN_FREQ);
    if window.len() <= longest {
        None
    } else {
        let best = best_lag(centered(window), shortest, longest + 1);
        if best.0 == 0 || best.1.le(Float::zero()) {
            None
        } else {
            Some(
                quotient(
                    Format::Single,
                    from_int(Format::Single, sample_rate as int),
                    from_int(Format::Single, best.0 as int),
                ),
            )
        }
    }
}

/// The lag of a frequency.
fn lag(sample_rate: u32, frequency: u32) -> (r: usize)
    ensures
        r == lag_of(sample_rate, frequency),
{
    Binary32::from_u64(sample_rate as u64).over(Binary32::from_bits(frequency)).to_usize()
}

/// Samples without their mean.
fn without_mean(window: &[i16]) -> (r: Vec<Binary32>)
    ensures
        r@.map_values(|x: Binary32| x@) == centered(window@),
{
    let mut acc: Binary32 = Binary32::from_u64(0);
    let mut i: usize = 0;
    proof {
        vstd::arithmetic::mul::lemma_mul_basics(Format::Single.one() as int);
        assert(as_numbers(window@).take(0) =~= Seq::<Float>::empty());
    }
    while i < window.len()
        invariant
            i <= window@.len(),
            acc@ == total(Format::Single, as_numbers(window@).take(i as int)),
        decreases window@.len() - i,
    {
        proof {
            let all = as_numbers(window@);
            assert(all.take(i + 1).drop_last() =~= all.take(i as int));
        }
        acc = acc.plus(Binary32::from_i16(window[i]));
        i = i + 1;
    }
    assert(as_numbers(window@).take(i as int) =~= as_numbers(window@));
    let middle: Binary32 = acc.over(Binary32::from_u64(window.len() as u64));
    let mut r: Vec<Binary32> = Vec::new();
    let mut j: usize = 0;
    while j < window.len()
        invariant
            j <= window@.len(),
            r@.len() == j,
            middle@ == mean(Format::Single, as_numbers(window@)),
            forall|k: int| 0 <= k < j ==> (#[trigger] r@[k])@ == centered(window@)[k],
        decreases window@.len() - j,
    {
        r.push(Binary32::from_i16(window[j]).minus(middle));
        j = j + 1;
    }
    assert(r@.map_values(|x: Binary32| x@) =~= centered(window@));
    r
}

/// How well numbers agree with themselves, `lag` later.
fn correlate(xs: &Vec<Binary32>, lag: usize) -> (r: Binary32)
    requires
        lag <= xs@.len(),
    ensures
        r@ == self_correlation(xs@.map_values(|x: Binary32| x@), lag as nat),
{
    let n: usize = xs.len() - lag;
    let ghost ys = xs@.map_values(|x: Binary32| x@);
    let mut corr: Binary32 = Binary32::from_u64(0);
    let mut i: usize = 0;
    proof {
        vstd::arithmetic::mul::lemma_mul_basics(Format::Single.one() as int);
    }
    while i < n
        invariant
            i <= n,
            n + lag == xs.len(),
            ys == xs@.map_values(|x: Binary32| x@),
            corr@ == correlation(ys, lag as nat, i as nat),
        decreases n - i,
    {
        corr = corr.plus(xs[i].times(xs[i + lag]));
        i = i + 1;
    }
    corr
}

/// A rough estimate of the pitch of a voice: the period after which the samples agree best with
/// themselves. `None` where the window is too short or nothing agrees.
pub fn estimate_pitch(window: &[i16], sample_rate: u32) -> (r: Option<Binary32>)
    ensures
        r is Some <==> suggested_pitch(window@, sample_rate) is Some,
        r matches Some(p) ==> Some(p@) == suggested_pitch(window@, sample_rate) && p.has_rank(),
{
    let min_lag: usize = lag(sample_rate, MAX_FREQ);
    let max_lag: usize = lag(sample_rate, MIN_FREQ);
    if window.len() <= max_lag {
        return None;
    }
    let xs: Vec<Binary32> = without_mean(window);
    let ghost ys = xs@.map_values(|x: Binary32| x@);
    assert(ys.len() == window@.len());
    let mut best: usize = 0;
    let mut best_corr: Binary32 = Binary32::from_u64(0);
    let zero: Binary32 = Binary32::from_u64(0);
    proof {
        vstd::arithmetic::mul::lemma_mul_basics(Format::Single.one() as int);
    }
    let mut at: usize = min_lag;
    while at <= max_lag
        invariant
            min_lag <= at,
            at <= max_lag + 1 || at == min_lag,
            max_lag < xs.len(),
            ys == xs@.map_values(|x: Binary32| x@),
            best <= max_lag,
            (best as nat, best_corr@) == best_lag(ys, min_lag as nat, at as nat),
        decreases max_lag + 1 - at,
    {
        let corr: Binary32 = correlate(&xs, at);
        if best_corr.below(corr) {
            best_corr = corr;
            best = at;
        }
        at = at + 1;
    }
    proof {
        if min_lag > max_lag {
            assert(best_lag(ys, min_lag as nat, at as nat) == best_lag(
                ys,
                min_lag as nat,
                (max_lag + 1) as nat,
            ));
        }
    }
    if best == 0 || best_corr.at_most(zero) {
        None
    } else {
        proof {
            lemma_u64_is_finite(Format::Single, sample_rate as nat);
            lemma_u64_is_finite(Format::Single, best as nat);
        }
        Some(Binary32::from_u64(sample_rate as u64).over(Binary32::from_u64(best as u64)))
    }
}

} // verus!
