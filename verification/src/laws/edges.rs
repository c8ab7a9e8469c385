//! Laws at the edges: of nothing, of little, and of what is remembered.

use crate::float::arith::lemma_format;
use crate::float::binary32::Binary32;
use crate::float::laws::law_small_wholes_divide;
use crate::float::model::{nearest, Float, Format};
use crate::laws::frames::{law_count_is_of_set_flags, speech_among};
use crate::live::mean_level;
use crate::metrics::{delays, segments_until, Segment, SpeechInterval};
use crate::report::percentage;
use crate::signal::{crossing_rate, energy, loudness, remembered, set_share};
use vstd::arithmetic::mul::lemma_mul_basics;
use vstd::arithmetic::power2::lemma2_to64;
use vstd::prelude::*;

verus! {

/// The share of flags that are set is how many are, divided by how many there are; of none it is
/// zero.
pub proof fn law_share_of_flags(flags: Seq<bool>)
    requires
        flags.len() <= 0x100_0000,
    ensures
        flags.len() > 0 ==> set_share(flags) == nearest(
            Format::Single,
            false,
            speech_among(flags) * Format::Single.one(),
            flags.len(),
        ),
        flags.len() == 0 ==> set_share(flags).same(Float::zero()),
{
    let s = Format::Single;
    lemma_format(s);
    lemma2_to64();
    law_count_is_of_set_flags(flags);
    if flags.len() > 0 {
        law_small_wholes_divide(s, speech_among(flags), flags.len());
    } else {
        law_small_wholes_divide(s, 0, 1);
        lemma_mul_basics(s.one() as int);
        crate::float::ops::lemma_rounded_zero(s, false, 1);
        vstd::arithmetic::power2::lemma_pow2_pos(s.precision() + s.top());
    }
}

/// Of flags, the last `limit` are remembered, the new one among them.
pub proof fn law_last_flags_are_remembered(flags: Seq<bool>, flag: bool, limit: nat)
    requires
        0 < limit,
        flags.len() <= limit,
    ensures
        ({
            let after = remembered(flags, flag, limit);
            &&& after.len() == if flags.len() < limit {
                flags.len() + 1
            } else {
                limit
            }
            &&& after.last() == flag
            &&& forall|i: int|
                0 <= i < after.len() - 1 ==> #[trigger] after[i] == flags[flags.len() - (
                after.len() - 1) + i]
        }),
{
}

/// A stretch of less than two samples has no sign changes, and one without samples no loudness.
pub proof fn law_too_few_samples(samples: Seq<i16>)
    ensures
        samples.len() < 2 ==> crossing_rate(samples) == Float::zero(),
        samples.len() == 0 ==> loudness(samples).is_nan(),
{
    if samples.len() == 0 {
        lemma_mul_basics(Format::Double.one() as int);
        assert(energy(samples) == Float::zero());
    }
}

/// Nothing is zero on average, and has no share.
pub proof fn law_nothing_is_zero(levels: Seq<Binary32>, predictions: Seq<bool>)
    ensures
        levels.len() == 0 ==> mean_level(levels) == Float::zero(),
        predictions.len() == 0 ==> percentage(predictions) == Float::zero(),
{
}

/// Without predicted speech there are no segments.
pub proof fn law_no_speech_no_segments(
    predictions: Seq<bool>,
    frame_ms: Float,
    min_ms: u64,
    n: nat,
)
    requires
        n <= predictions.len(),
        forall|i: int| 0 <= i < predictions.len() ==> !#[trigger] predictions[i],
    ensures
        segments_until(predictions, frame_ms, min_ms, n) == Seq::<Segment>::empty(),
    decreases n,
{
    if n > 0 {
        law_no_speech_no_segments(predictions, frame_ms, min_ms, (n - 1) as nat);
        assert(!predictions[n - 1]);
    }
}

/// Without segments there are no delays.
pub proof fn law_no_segments_no_delays(speech: Seq<SpeechInterval>, n: nat)
    requires
        n <= speech.len(),
    ensures
        delays(speech, Seq::<Segment>::empty(), n) == Seq::<Float>::empty(),
    decreases n,
{
    if n > 0 {
        law_no_segments_no_delays(speech, (n - 1) as nat);
        crate::laws::latency::law_first_counts(Seq::<Segment>::empty(), speech[n - 1]);
    }
}

} // verus!
