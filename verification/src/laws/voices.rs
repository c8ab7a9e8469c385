//! Laws of the profile of a voice, and of the verdict on an utterance.

use crate::float::arith::lemma_format;
use crate::float::binary32::Binary32;
use crate::float::laws::law_small_whole_is_exact;
use crate::float::model::{from_int, magnitude, nearest, rounded, Float, Format};
use crate::laws::averages::{
    are_amounts, are_wholes, exact_sum, law_larger_sum_larger_mean, law_mean_is_accurate,
    law_mean_of_wholes, size_of_all, sum_of,
};
use crate::laws::frames::law_share_is_accurate;
use crate::live::{
    is_profile_of, mean_level, values, verdict_on, VoiceProfile, LEVEL_SHARE, PITCH_SLACK_ABOVE,
    PITCH_SLACK_BELOW,
};
use crate::signal::single;
use vstd::arithmetic::power2::{
    lemma2_to64, lemma2_to64_rest, lemma_pow2_adds, lemma_pow2_pos, pow2,
};
use vstd::prelude::*;

verus! {

/// The numbers that stand in a list.
pub open spec fn numbers(levels: Seq<Binary32>) -> Seq<Float> {
    Seq::new(levels.len(), |i: int| levels[i]@)
}

/// The loudness of a profile is the mean of all levels: for small whole levels their exact sum
/// divided by how many they are, rounded once.
pub proof fn law_profile_tells_mean_level(
    profile: VoiceProfile,
    ordered: Seq<Binary32>,
    levels: Seq<Binary32>,
    ws: Seq<int>,
)
    requires
        is_profile_of(profile, ordered, levels),
        are_wholes(Format::Single, numbers(levels), ws),
        size_of_all(ws) <= 0x100_0000,
        sum_of(ws) >= 0,
        0 < levels.len() <= 0x100_0000,
    ensures
        profile.rms_avg@ == nearest(
            Format::Single,
            false,
            (sum_of(ws) * Format::Single.one()) as nat,
            levels.len(),
        ),
{
    lemma_format(Format::Single);
    assert(values(levels) =~= numbers(levels));
    law_mean_of_wholes(Format::Single, numbers(levels), ws);
}

/// Raising one level.
proof fn lemma_raised(ws: Seq<int>, i: int, by: nat)
    requires
        0 <= i < ws.len(),
        forall|j: int| 0 <= j < ws.len() ==> #[trigger] ws[j] >= 0,
    ensures
        sum_of(ws.update(i, ws[i] + by)) == sum_of(ws) + by,
        size_of_all(ws.update(i, ws[i] + by)) == sum_of(ws) + by,
        size_of_all(ws) == sum_of(ws),
        sum_of(ws) >= 0,
    decreases ws.len(),
{
    let raised = ws.update(i, ws[i] + by);
    let rest = ws.drop_last();
    assert(ws[ws.len() - 1] >= 0);
    assert forall|j: int| 0 <= j < rest.len() implies #[trigger] rest[j] >= 0 by {
        assert(ws[j] >= 0);
    }
    if i < ws.len() - 1 {
        lemma_raised(rest, i, by);
        assert(raised.drop_last() =~= rest.update(i, rest[i] + by));
    } else {
        assert(raised.drop_last() =~= rest);
        lemma_sizes(rest);
    }
}

/// The sum of whole numbers that are not negative.
proof fn lemma_sizes(ws: Seq<int>)
    requires
        forall|j: int| 0 <= j < ws.len() ==> #[trigger] ws[j] >= 0,
    ensures
        size_of_all(ws) == sum_of(ws),
        sum_of(ws) >= 0,
    decreases ws.len(),
{
    if ws.len() > 0 {
        let rest = ws.drop_last();
        assert forall|j: int| 0 <= j < rest.len() implies #[trigger] rest[j] >= 0 by {
            assert(ws[j] >= 0);
        }
        assert(ws[ws.len() - 1] >= 0);
        lemma_sizes(rest);
    }
}

/// Raising any one of small whole levels raises the loudness of a profile.
pub proof fn law_every_level_counts(
    a: VoiceProfile,
    b: VoiceProfile,
    ordered: Seq<Binary32>,
    levels: Seq<Binary32>,
    raised: Seq<Binary32>,
    ws: Seq<int>,
    i: int,
    by: nat,
)
    requires
        is_profile_of(a, ordered, levels),
        is_profile_of(b, ordered, raised),
        are_wholes(Format::Single, numbers(levels), ws),
        are_wholes(Format::Single, numbers(raised), ws.update(i, ws[i] + by)),
        forall|j: int| 0 <= j < ws.len() ==> #[trigger] ws[j] >= 0,
        sum_of(ws) + by <= 0x40_0000,
        0 < levels.len() <= 0x100_0000,
        0 <= i < ws.len(),
        by > 0,
    ensures
        a.rms_avg@.lt(b.rms_avg@),
{
    lemma_raised(ws, i, by);
    law_profile_tells_mean_level(a, ordered, levels, ws);
    law_profile_tells_mean_level(b, ordered, raised, ws.update(i, ws[i] + by));
    law_larger_sum_larger_mean(
        Format::Single,
        sum_of(ws) as nat,
        (sum_of(ws) + by) as nat,
        levels.len(),
    );
}

/// The loudness of a profile is the mean of all levels, whatever they are, up to what rounding
/// loses.
pub proof fn law_profile_tells_mean_of_any_levels(
    profile: VoiceProfile,
    ordered: Seq<Binary32>,
    levels: Seq<Binary32>,
)
    requires
        is_profile_of(profile, ordered, levels),
        are_amounts(numbers(levels)),
        0 < levels.len() <= 0x40_0000,
        4 * exact_sum(numbers(levels)) < Format::Single.limit(),
    ensures
        profile.rms_avg@ is Finite && !profile.rms_avg@.neg(),
        0x100_0000 * magnitude(
            profile.rms_avg@.mag() * levels.len() - exact_sum(numbers(levels)),
        ) <= (2 * levels.len() + 2) * exact_sum(numbers(levels)) + 0x100_0000 * levels.len(),
{
    lemma_format(Format::Single);
    assert(values(levels) =~= numbers(levels));
    law_mean_is_accurate(Format::Single, numbers(levels));
}

/// The shares that profiles and verdicts use.
proof fn lemma_shares()
    ensures
        single(LEVEL_SHARE) == (Float::Finite { neg: false, mag: 13_421_773 * pow2(123) }),
        single(PITCH_SLACK_BELOW) == (Float::Finite { neg: false, mag: 14_260_634 * pow2(125) }),
        single(PITCH_SLACK_ABOVE) == (Float::Finite { neg: false, mag: 9_646_899 * pow2(126) }),
{
    lemma_format(Format::Single);
    lemma2_to64();
    lemma2_to64_rest();
}

/// The range of a profile: it begins 15 percent below the pitch that a tenth of all pitches stand
/// before, and ends 15 percent above the one that a tenth stand after, up to one part in a hundred.
pub proof fn law_profile_tells_range(
    profile: VoiceProfile,
    ordered: Seq<Binary32>,
    levels: Seq<Binary32>,
)
    requires
        is_profile_of(profile, ordered, levels),
        ordered.len() >= 3,
        forall|i: int|
            0 <= i < ordered.len() ==> (#[trigger] ordered[i])@ is Finite && !ordered[i]@.neg()
                && 1000 <= ordered[i]@.mag() <= 0x10_0000 * Format::Single.one(),
    ensures
        ({
            let n = ordered.len() as int;
            let lo = ordered[n / 10]@.mag();
            let hi = ordered[n - 1 - n / 10]@.mag();
            &&& profile.pitch_min@ is Finite && !profile.pitch_min@.neg()
            &&& profile.pitch_max@ is Finite && !profile.pitch_max@.neg()
            &&& 84 * lo <= 100 * profile.pitch_min@.mag() <= 86 * lo
            &&& 114 * hi <= 100 * profile.pitch_max@.mag() <= 116 * hi
            // Up to one part in a million.
            &&& 849_999 * lo <= 1_000_000 * profile.pitch_min@.mag() + 2_000_000
            &&& 1_000_000 * profile.pitch_min@.mag() <= 850_001 * lo + 2_000_000
            &&& 1_149_999 * hi <= 1_000_000 * profile.pitch_max@.mag() + 2_000_000
            &&& 1_000_000 * profile.pitch_max@.mag() <= 1_150_001 * hi + 2_000_000
        }),
{
    let s = Format::Single;
    let n = ordered.len() as int;
    assert(ordered[n / 10]@ is Finite);
    assert(ordered[n - 1 - n / 10]@ is Finite);
    let lo = ordered[n / 10]@.mag();
    let hi = ordered[n - 1 - n / 10]@.mag();
    lemma_shares();
    lemma_format(s);
    lemma2_to64();
    law_share_is_accurate(lo, 14_260_634, 24, 125);
    // More than one: twice of a share that is less than one.
    vstd::arithmetic::power2::lemma_pow2_unfold(126);
    lemma_above_one(hi);
    let r = rounded(lo * (14_260_634 * pow2(125)), s.one(), 24);
    assert(84 * lo <= 100 * r <= 86 * lo);
    assert(849_999 * lo <= 1_000_000 * r + 2_000_000);
    assert(1_000_000 * r <= 850_001 * lo + 2_000_000);
    crate::float::laws::lemma_exact_product(s, 0x20_0000, s.scale());
    lemma_pow2_pos(s.scale());
}

/// 1.15 times a number.
proof fn lemma_above_one(x: nat)
    requires
        x >= 1000,
    ensures
        ({
            let r = rounded(x * (9_646_899 * pow2(126)), Format::Single.one(), 24);
            &&& 114 * x <= 100 * r <= 116 * x
            &&& 1_149_999 * x <= 1_000_000 * r + 2_000_000
            &&& 1_000_000 * r <= 1_150_001 * x + 2_000_000
        }),
{
    let one = Format::Single.one();
    let v = pow2(126);
    lemma_format(Format::Single);
    lemma2_to64();
    lemma_pow2_adds(23, 126);
    lemma_pow2_pos(126);
    let num = x * (9_646_899 * v);
    crate::float::laws::law_rounding_error(num, one, 24);
    let r = rounded(num, one, 24);
    let t = r * 8_388_608 - x * 9_646_899;
    assert(r * one - num == t * v && num == (x * 9_646_899) * v) by (nonlinear_arith)
        requires
            one == 8_388_608 * v,
            num == x * (9_646_899 * v),
            t == r * 8_388_608 - x * 9_646_899,
    ;
    let e = magnitude(t);
    assert(magnitude(t * v) == e * v) by (nonlinear_arith)
        requires
            v > 0,
            magnitude(t * v) == if t * v < 0 {
                -(t * v)
            } else {
                t * v
            },
            e == if t < 0 {
                -t
            } else {
                t
            },
    ;
    if 0x100_0000 * (e * v) <= num {
        assert(0x100_0000 * e <= x * 9_646_899) by (nonlinear_arith)
            requires
                0x100_0000 * (e * v) <= (x * 9_646_899) * v,
                v > 0,
        ;
    } else {
        assert(2 * e <= 8_388_608) by (nonlinear_arith)
            requires
                2 * (e * v) <= 8_388_608 * v,
                v > 0,
        ;
    }
}

/// The verdict, told by the numbers themselves: a pitch outside of the range of the profile is
/// different; within it the level decides, which must be a fifth of the loudness of the profile, up
/// to one part in a hundred of it; where the profile has no loudness any level will do.
pub proof fn law_verdict_goes_by_pitch_and_level(
    profile: VoiceProfile,
    pitch: Binary32,
    level: Float,
)
    requires
        is_loudness(profile.rms_avg@),
        level is Finite && !level.neg(),
    ensures
        ({
            let verdict = verdict_on(Some(profile), Some(pitch), level);
            let within = profile.pitch_min@.le(pitch@) && pitch@.le(profile.pitch_max@);
            let loudness = profile.rms_avg@.mag();
            &&& verdict is Alike || verdict is Different
            &&& !within ==> verdict is Different
            &&& within && loudness == 0 ==> verdict is Alike
            &&& loudness > 0 && 100 * level.mag() <= 19 * loudness ==> verdict is Different
            &&& within && 100 * level.mag() >= 21 * loudness ==> verdict is Alike
            // Up to one part in a million.
            &&& loudness > 0 && 1_000_000 * level.mag() + 2_000_000 <= 199_999 * loudness
                ==> verdict is Different
            &&& within && 1_000_000 * level.mag() >= 200_001 * loudness + 2_000_000
                ==> verdict is Alike
        }),
{
    let s = Format::Single;
    let w = profile.rms_avg@.mag();
    lemma_shares();
    lemma_format(s);
    lemma2_to64();
    lemma_pow2_pos(s.scale());
    law_share_is_accurate(w, 13_421_773, 26, 123);
    let r = rounded(w * (13_421_773 * pow2(123)), s.one(), 24);
    assert(w >= 1000 ==> 19 * w < 100 * r < 21 * w);
    assert(1_000_000 * r < 200_001 * w + 2_000_000);
    assert(199_999 * w < 1_000_000 * r + 2_000_000);
    crate::float::laws::lemma_exact_product(s, 0x20_0000, s.scale());
}

/// A loudness that is nothing, or a finite number that is not tiny.
pub open spec fn is_loudness(x: Float) -> bool {
    x is Finite && !x.neg() && (x.mag() == 0 || 1000 <= x.mag() <= 0x10_0000 * Format::Single.one())
}

/// Without a profile, or without a pitch, there is nothing to compare.
pub proof fn law_verdict_needs_profile_and_pitch(
    profile: VoiceProfile,
    pitch: Option<Binary32>,
    level: Float,
)
    ensures
        verdict_on(None, pitch, level) is NoProfile,
        verdict_on(Some(profile), None, level) is PitchUnknown,
        pitch is Some ==> !(verdict_on(Some(profile), pitch, level) is NoProfile)
            && !(verdict_on(Some(profile), pitch, level) is PitchUnknown),
{
}

/// The verdict on an utterance whose levels are small whole numbers: its mean level counts. Below
/// 18 percent of the loudness of the profile it is different, and above 22 percent it is alike.
#[verifier::rlimit(40)]
pub proof fn law_verdict_goes_by_mean_level(
    profile: VoiceProfile,
    pitch: Binary32,
    levels: Seq<Binary32>,
    ws: Seq<int>,
    loudness: nat,
)
    requires
        profile.rms_avg@ == from_int(Format::Single, loudness as int),
        0 < loudness <= 0x10_0000,
        profile.pitch_min@.le(pitch@) && pitch@.le(profile.pitch_max@),
        are_wholes(Format::Single, numbers(levels), ws),
        size_of_all(ws) <= 0x100_0000,
        sum_of(ws) >= 0,
        0 < levels.len() <= 0x100_0000,
    ensures
        ({
            let verdict = verdict_on(Some(profile), Some(pitch), mean_level(levels));
            &&& 100 * sum_of(ws) <= 18 * (loudness * levels.len()) ==> verdict is Different
            &&& 100 * sum_of(ws) >= 22 * (loudness * levels.len()) ==> verdict is Alike
        }),
{
    let s = Format::Single;
    let one = s.one();
    let n = levels.len();
    let sum = sum_of(ws) as nat;
    lemma_format(s);
    lemma2_to64();
    lemma2_to64_rest();
    crate::float::rounding::lemma_pow2_le(60, s.scale());
    assert(values(levels) =~= numbers(levels));
    law_mean_of_wholes(s, numbers(levels), ws);
    law_small_whole_is_exact(s, loudness as int);
    let r = rounded(sum * one, n, 24);
    crate::float::laws::law_rounding_error(sum * one, n, 24);
    crate::float::laws::lemma_exact_product(s, 0x100_0000, s.scale());
    assert(sum <= 0x100_0000) by {
        lemma_sum_small(ws);
    }
    assert((sum * one) * 1 <= (0x100_0000 * one) * n) by (nonlinear_arith)
        requires
            sum <= 0x100_0000,
            n >= 1,
            one >= 0,
    ;
    crate::float::laws::lemma_rounded_order(sum * one, n, 0x100_0000 * one, 1, 24);
    assert(mean_level(levels) == (Float::Finite { neg: false, mag: r }));
    let w = loudness * one;
    assert(one <= w <= 0x10_0000 * one) by (nonlinear_arith)
        requires
            w == loudness * one,
            1 <= loudness <= 0x10_0000,
            one >= 0,
    ;
    law_verdict_goes_by_pitch_and_level(profile, pitch, mean_level(levels));
    let e = magnitude(r * n - sum * one);
    let t = loudness * n;
    assert(t * one == w * n) by (nonlinear_arith)
        requires
            t == loudness * n,
            w == loudness * one,
    ;
    let x = sum * one;
    let y = w * n;
    assert(y >= one * n) by (nonlinear_arith)
        requires
            y == w * n,
            w >= one,
    ;
    assert(one * n >= 0x1000_0000 * n) by (nonlinear_arith)
        requires
            one >= 0x1000_0000,
            n >= 0,
    ;
    if 100 * sum <= 18 * t {
        assert(100 * x <= 18 * y) by (nonlinear_arith)
            requires
                100 * sum <= 18 * t,
                x == sum * one,
                y == t * one,
                one >= 0,
        ;
        assert(100 * (r * n) <= 19 * y);
        assert(100 * r <= 19 * w) by (nonlinear_arith)
            requires
                100 * (r * n) <= 19 * y,
                y == w * n,
                n > 0,
        ;
    }
    if 100 * sum >= 22 * t {
        assert(100 * x >= 22 * y) by (nonlinear_arith)
            requires
                100 * sum >= 22 * t,
                x == sum * one,
                y == t * one,
                one >= 0,
        ;
        assert(100 * (r * n) >= 21 * y);
        assert(100 * r >= 21 * w) by (nonlinear_arith)
            requires
                100 * (r * n) >= 21 * y,
                y == w * n,
                n > 0,
        ;
    }
}

/// A sum is not larger than the sum of the magnitudes.
proof fn lemma_sum_small(ws: Seq<int>)
    ensures
        sum_of(ws) <= size_of_all(ws),
    decreases ws.len(),
{
    if ws.len() > 0 {
        lemma_sum_small(ws.drop_last());
    }
}

} // verus!
