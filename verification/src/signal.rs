//! What is measured of a stretch of samples, and the filter that they go through.

use crate::float::binary32::{clamped, Binary32};
use crate::float::binary64::Binary64;
use crate::float::model::{
    converted, difference, from_int, product, quotient, square_root, sum, truncated, Float, Format,
};
use std::collections::VecDeque;
use vstd::prelude::*;

verus! {

/// 0.92: how much of the signal the high-pass filter keeps.
pub const HPF_ALPHA: u32 = 0x3f6b_851f;

/// 32768.0: the magnitude that counts as full scale.
pub const FULL_SCALE: u32 = 0x4700_0000;

/// -32768.0: the least sample.
pub const LEAST_SAMPLE: u32 = 0xc700_0000;

/// 32767.0: the greatest sample.
pub const GREATEST_SAMPLE: u32 = 0x46ff_fe00;

/// 0.5: the score from which a frame counts as voiced.
pub const VAD_THRESHOLD: u32 = 0x3f00_0000;

/// 0.05: how fast the noise floor follows the level.
pub const NOISE_FLOOR_ALPHA: u32 = 0x3d4c_cccd;

/// The number with the given single-precision bits.
pub open spec fn single(bits: u32) -> Float {
    Binary32 { bits }@
}

/// The sum of the squares of samples, in double precision, from the left.
pub open spec fn energy(samples: Seq<i16>) -> Float
    decreases samples.len(),
{
    let d = Format::Double;
    if samples.len() == 0 {
        Float::zero()
    } else {
        let s = from_int(d, samples.last() as int);
        sum(d, energy(samples.drop_last()), product(d, s, s))
    }
}

/// The root of the mean square of samples: computed in double precision, told in single.
pub open spec fn loudness(samples: Seq<i16>) -> Float {
    let d = Format::Double;
    converted(
        d,
        Format::Single,
        square_root(d, quotient(d, energy(samples), from_int(d, samples.len() as int))),
    )
}

/// Whether the sign changes from the sample before `i` to that at `i`; zero counts as positive.
pub open spec fn crosses(samples: Seq<i16>, i: int) -> bool {
    (samples[i] >= 0) != (samples[i - 1] >= 0)
}

/// How often the sign changes within the first `n` samples.
pub open spec fn crossings(samples: Seq<i16>, n: nat) -> nat
    decreases n,
{
    if n < 2 {
        0
    } else {
        crossings(samples, (n - 1) as nat) + if crosses(samples, n - 1) {
            1nat
        } else {
            0
        }
    }
}

/// Sign changes per sample.
pub open spec fn crossing_rate(samples: Seq<i16>) -> Float {
    if samples.len() < 2 {
        Float::zero()
    } else {
        quotient(
            Format::Single,
            from_int(Format::Single, crossings(samples, samples.len()) as int),
            from_int(Format::Single, samples.len() as int),
        )
    }
}

/// A sample as a double-precision number, squared.
fn square(sample: i16) -> (r: Binary64)
    ensures
        r@ == product(
            Format::Double,
            from_int(Format::Double, sample as int),
            from_int(Format::Double, sample as int),
        ),
{
    let x: Binary64 = Binary64::from_i16(sample);
    x.times(x)
}

/// The root of the mean square of samples.
pub fn rms(samples: &[i16]) -> (r: Binary32)
    ensures
        r@ == loudness(samples@),
{
    let mut sum_sq: Binary64 = Binary64::from_u64(0);
    let mut i: usize = 0;
    proof {
        vstd::arithmetic::mul::lemma_mul_basics(Format::Double.one() as int);
        assert(samples@.take(0) =~= Seq::<i16>::empty());
    }
    while i < samples.len()
        invariant
            i <= samples@.len(),
            sum_sq@ == energy(samples@.take(i as int)),
        decreases samples@.len() - i,
    {
        proof {
            assert(samples@.take(i + 1).drop_last() =~= samples@.take(i as int));
        }
        sum_sq = sum_sq.plus(square(samples[i]));
        i = i + 1;
    }
    assert(samples@.take(i as int) =~= samples@);
    sum_sq.over(Binary64::from_u64(samples.len() as u64)).sqrt().to_single()
}

/// Sign changes per sample.
pub fn zcr(samples: &[i16]) -> (r: Binary32)
    ensures
        r@ == crossing_rate(samples@),
{
    if samples.len() < 2 {
        proof {
            vstd::arithmetic::mul::lemma_mul_basics(Format::Single.one() as int);
        }
        return Binary32::from_u64(0);
    }
    let mut count: usize = 0;
    let mut i: usize = 1;
    while i < samples.len()
        invariant
            1 <= i <= samples@.len(),
            count < i,
            count == crossings(samples@, i as nat),
        decreases samples@.len() - i,
    {
        if (samples[i] >= 0 && samples[i - 1] < 0) || (samples[i] < 0 && samples[i - 1] >= 0) {
            count = count + 1;
        }
        i = i + 1;
    }
    Binary32::from_u64(count as u64).over(Binary32::from_u64(samples.len() as u64))
}

/// What the high-pass filter remembers: its last output and its last input.
pub struct FilterState {
    pub y: Float,
    pub x: Float,
}

/// A filter that has seen nothing.
pub open spec fn filter_at_rest() -> FilterState {
    FilterState { y: Float::zero(), x: Float::zero() }
}

/// One sample through the filter.
pub open spec fn filter_step(state: FilterState, sample: i16) -> FilterState {
    let s = Format::Single;
    let x = quotient(s, from_int(s, sample as int), single(FULL_SCALE));
    FilterState {
        y: product(s, single(HPF_ALPHA), difference(s, sum(s, state.y, x), state.x)),
        x,
    }
}

/// Samples through the filter, one after another.
pub open spec fn filter_after(state: FilterState, samples: Seq<i16>) -> FilterState
    decreases samples.len(),
{
    if samples.len() == 0 {
        state
    } else {
        filter_step(filter_after(state, samples.drop_last()), samples.last())
    }
}

/// A filtered value as a sample.
pub open spec fn sample_of(y: Float) -> i16 {
    let scaled = product(Format::Single, y, single(FULL_SCALE));
    truncated(
        Format::Single,
        clamped(scaled, single(LEAST_SAMPLE), single(GREATEST_SAMPLE)),
        i16::MIN as int,
        i16::MAX as int,
    ) as i16
}

/// The samples that come out of the filter.
pub open spec fn filtered(state: FilterState, samples: Seq<i16>) -> Seq<i16> {
    Seq::new(samples.len(), |i: int| sample_of(filter_after(state, samples.take(i + 1)).y))
}

/// A first-order high-pass filter.
#[derive(Clone, Copy, Debug)]
pub struct HighPassFilter {
    y_prev: Binary32,
    x_prev: Binary32,
}

impl View for HighPassFilter {
    type V = FilterState;

    closed spec fn view(&self) -> FilterState {
        FilterState { y: self.y_prev@, x: self.x_prev@ }
    }
}

impl HighPassFilter {
    /// A filter that has seen nothing.
    pub fn new() -> (r: HighPassFilter)
        ensures
            r@ == filter_at_rest(),
    {
        proof {
            vstd::arithmetic::mul::lemma_mul_basics(Format::Single.one() as int);
        }
        HighPassFilter { y_prev: Binary32::from_u64(0), x_prev: Binary32::from_u64(0) }
    }

    /// Filters samples into a buffer. What the buffer holds beyond them becomes zero; what does
    /// not fit into the buffer is not filtered.
    pub fn process(&mut self, samples: &[i16], output_buf: &mut Vec<Binary32>)
        ensures
            final(output_buf)@.len() == old(output_buf)@.len(),
            ({
                let n = if samples@.len() <= old(output_buf)@.len() {
                    samples@.len()
                } else {
                    old(output_buf)@.len()
                };
                &&& final(self)@ == filter_after(old(self)@, samples@.take(n as int))
                &&& forall|i: int|
                    0 <= i < n ==> (#[trigger] final(output_buf)@[i])@ == filter_after(
                        old(self)@,
                        samples@.take(i + 1),
                    ).y
                &&& forall|i: int|
                    n <= i < final(output_buf)@.len() ==> (#[trigger] final(output_buf)@[i])@
                        == Float::zero()
            }),
    {
        let n: usize = if samples.len() <= output_buf.len() {
            samples.len()
        } else {
            output_buf.len()
        };
        let full: Binary32 = Binary32::from_bits(FULL_SCALE);
        let alpha: Binary32 = Binary32::from_bits(HPF_ALPHA);
        let mut i: usize = 0;
        let ghost start = self@;
        proof {
            assert(samples@.take(0) =~= Seq::<i16>::empty());
        }
        while i < n
            invariant
                i <= n <= samples@.len(),
                n <= output_buf@.len(),
                output_buf@.len() == old(output_buf)@.len(),
                full@ == single(FULL_SCALE),
                alpha@ == single(HPF_ALPHA),
                self@ == filter_after(start, samples@.take(i as int)),
                forall|j: int|
                    0 <= j < i ==> (#[trigger] output_buf@[j])@ == filter_after(
                        start,
                        samples@.take(j + 1),
                    ).y,
            decreases n - i,
        {
            proof {
                assert(samples@.take(i + 1).drop_last() =~= samples@.take(i as int));
            }
            let x_norm: Binary32 = Binary32::from_i16(samples[i]).over(full);
            let y: Binary32 = alpha.times(self.y_prev.plus(x_norm).minus(self.x_prev));
            self.x_prev = x_norm;
            self.y_prev = y;
            output_buf.set(i, y);
            i = i + 1;
        }
        proof {
            vstd::arithmetic::mul::lemma_mul_basics(Format::Single.one() as int);
        }
        let zero: Binary32 = Binary32::from_u64(0);
        while i < output_buf.len()
            invariant
                n <= i <= output_buf@.len(),
                output_buf@.len() == old(output_buf)@.len(),
                zero@ == Float::zero(),
                forall|j: int|
                    0 <= j < n ==> (#[trigger] output_buf@[j])@ == filter_after(
                        start,
                        samples@.take(j + 1),
                    ).y,
                forall|j: int| n <= j < i ==> (#[trigger] output_buf@[j])@ == Float::zero(),
            decreases output_buf@.len() - i,
        {
            output_buf.set(i, zero);
            i = i + 1;
        }
    }

    /// Forgets what was seen.
    pub fn reset(&mut self)
        ensures
            final(self)@ == filter_at_rest(),
    {
        proof {
            vstd::arithmetic::mul::lemma_mul_basics(Format::Single.one() as int);
        }
        self.y_prev = Binary32::from_u64(0);
        self.x_prev = Binary32::from_u64(0);
    }
}

/// Filtered values as samples.
pub fn to_samples(values: &Vec<Binary32>) -> (samples: Vec<i16>)
    ensures
        samples@ == values@.map_values(|v: Binary32| sample_of(v@)),
{
    let full: Binary32 = Binary32::from_bits(FULL_SCALE);
    let least: Binary32 = Binary32::from_bits(LEAST_SAMPLE);
    let greatest: Binary32 = Binary32::from_bits(GREATEST_SAMPLE);
    let mut samples: Vec<i16> = Vec::new();
    let mut i: usize = 0;
    while i < values.len()
        invariant
            i <= values@.len(),
            samples@.len() == i,
            full@ == single(FULL_SCALE),
            least@ == single(LEAST_SAMPLE),
            greatest@ == single(GREATEST_SAMPLE),
            forall|j: int| 0 <= j < i ==> #[trigger] samples@[j] == sample_of(values@[j]@),
        decreases values@.len() - i,
    {
        samples.push(values[i].times(full).clamped(least, greatest).to_i16());
        i = i + 1;
    }
    assert(samples@ =~= values@.map_values(|v: Binary32| sample_of(v@)));
    samples
}

/// Whether a score counts as voiced.
pub open spec fn scores_voiced(score: Float) -> bool {
    single(VAD_THRESHOLD).le(score)
}

/// The noise floor after a frame: it follows the level of the frames that are not voiced, and is
/// the level of the first of them.
pub open spec fn followed(floor: Float, known: bool, level: Float, score: Float) -> Float {
    let s = Format::Single;
    let alpha = single(NOISE_FLOOR_ALPHA);
    if scores_voiced(score) {
        floor
    } else if !known {
        level
    } else {
        sum(
            s,
            product(s, floor, difference(s, from_int(s, 1), alpha)),
            product(s, level, alpha),
        )
    }
}

/// Whether a level is more than `margin` times the noise floor. Anything is while the noise floor
/// is not known.
pub open spec fn is_above(floor: Float, known: bool, level: Float, margin: Float) -> bool {
    !known || product(Format::Single, floor, margin).lt(level)
}

/// Whether a score counts as voiced.
pub fn is_voiced(score: Binary32) -> (r: bool)
    ensures
        r == scores_voiced(score@),
{
    Binary32::from_bits(VAD_THRESHOLD).at_most(score)
}

/// The noise floor after a frame.
pub fn follow(floor: Binary32, known: bool, level: Binary32, score: Binary32) -> (r: Binary32)
    ensures
        r@ == followed(floor@, known, level@, score@),
{
    if is_voiced(score) {
        floor
    } else if !known {
        level
    } else {
        let alpha: Binary32 = Binary32::from_bits(NOISE_FLOOR_ALPHA);
        floor.times(Binary32::from_u64(1).minus(alpha)).plus(level.times(alpha))
    }
}

/// Whether a level is more than `margin` times the noise floor.
pub fn above_floor(floor: Binary32, known: bool, level: Binary32, margin: Binary32) -> (r: bool)
    ensures
        r == is_above(floor@, known, level@, margin@),
{
    !known || floor.times(margin).below(level)
}

/// How many of the flags are set.
pub open spec fn count_set(flags: Seq<bool>) -> nat
    decreases flags.len(),
{
    if flags.len() == 0 {
        0
    } else {
        count_set(flags.drop_last()) + if flags.last() {
            1nat
        } else {
            0
        }
    }
}

/// The share of the flags that are set, in single precision; zero of none.
pub open spec fn set_share(flags: Seq<bool>) -> Float {
    quotient(
        Format::Single,
        from_int(Format::Single, count_set(flags) as int),
        from_int(
            Format::Single,
            if flags.len() == 0 {
                1
            } else {
                flags.len() as int
            },
        ),
    )
}

/// The flags after one more, of which at most `limit` are kept if no more were there before.
pub open spec fn remembered(flags: Seq<bool>, flag: bool, limit: nat) -> Seq<bool> {
    let all = flags.push(flag);
    if all.len() > limit {
        all.drop_first()
    } else {
        all
    }
}

/// There are no more set flags than flags.
pub proof fn lemma_count_set_bound(flags: Seq<bool>)
    ensures
        count_set(flags) <= flags.len(),
    decreases flags.len(),
{
    if flags.len() > 0 {
        lemma_count_set_bound(flags.drop_last());
    }
}

/// How many of the flags are set.
pub fn count_flags(flags: &[bool]) -> (r: usize)
    ensures
        r == count_set(flags@),
{
    let mut count: usize = 0;
    let mut i: usize = 0;
    proof {
        assert(flags@.take(0) =~= Seq::<bool>::empty());
    }
    while i < flags.len()
        invariant
            i <= flags@.len(),
            count <= i,
            count == count_set(flags@.take(i as int)),
        decreases flags@.len() - i,
    {
        proof {
            assert(flags@.take(i + 1).drop_last() =~= flags@.take(i as int));
        }
        if flags[i] {
            count = count + 1;
        }
        i = i + 1;
    }
    assert(flags@.take(i as int) =~= flags@);
    count
}

/// Adds a flag, and drops the oldest if there are more than `limit`.
pub fn remember(flags: &mut VecDeque<bool>, flag: bool, limit: usize)
    ensures
        final(flags)@ == remembered(old(flags)@, flag, limit as nat),
{
    flags.push_back(flag);
    if flags.len() > limit {
        let _ = flags.pop_front();
        assert(flags@ =~= old(flags)@.push(flag).drop_first());
    }
}

/// The share of the flags that are set; zero of none.
pub fn share_set(flags: &VecDeque<bool>) -> (r: Binary32)
    ensures
        r@ == set_share(flags@),
{
    let mut count: usize = 0;
    let mut i: usize = 0;
    proof {
        assert(flags@.take(0) =~= Seq::<bool>::empty());
    }
    while i < flags.len()
        invariant
            i <= flags@.len(),
            count <= i,
            count == count_set(flags@.take(i as int)),
        decreases flags@.len() - i,
    {
        proof {
            assert(flags@.take(i + 1).drop_last() =~= flags@.take(i as int));
        }
        if flags[i] {
            count = count + 1;
        }
        i = i + 1;
    }
    assert(flags@.take(i as int) =~= flags@);
    let whole: usize = if flags.len() == 0 {
        1
    } else {
        flags.len()
    };
    Binary32::from_u64(count as u64).over(Binary32::from_u64(whole as u64))
}

} // verus!
