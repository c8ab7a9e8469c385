//! Laws of the delay with which speech is detected.

use crate::float::laws::{
    law_small_whole_is_exact, law_small_wholes_add, law_small_wholes_keep_order,
    lemma_exact_product, lemma_rounded_order, lemma_rounded_scale, lemma_u64_is_finite,
};
use crate::float::model::{from_int, magnitude, mean, nearest, total, Float, Format};
use crate::laws::averages::{
    are_wholes, law_mean_of_wholes, law_total_of_wholes, lemma_sum_bounded, size_of_all, sum_of,
};
use crate::laws::labels::exact_limit;
use crate::metrics::{
    delay, delays, first_touched, is_first_touching, touches, Segment, SpeechInterval,
};
use vstd::arithmetic::mul::lemma_mul_basics;
use vstd::arithmetic::power2::{
    lemma2_to64, lemma2_to64_rest, lemma_pow2_adds, lemma_pow2_pos, pow2,
};
use vstd::prelude::*;

verus! {

/// Of the first `n` segments, one is the first that touches an interval, or none touches it.
proof fn lemma_some_is_first(detected: Seq<Segment>, interval: SpeechInterval, n: nat) -> (hit:
    Option<int>)
    requires
        n <= detected.len(),
    ensures
        is_first_touching(detected.take(n as int), interval, hit),
    decreases n,
{
    if n == 0 {
        None
    } else {
        let hit = lemma_some_is_first(detected, interval, (n - 1) as nat);
        let before = detected.take(n - 1);
        let here = detected.take(n as int);
        assert forall|j: int| 0 <= j < n - 1 implies here[j] == before[j] by {}
        match hit {
            Some(k) => {
                assert(here[k] == before[k]);
                assert forall|j: int| 0 <= j < k implies !touches(#[trigger] here[j], interval) by {
                    assert(!touches(before[j], interval));
                }
                hit
            },
            None => {
                assert forall|j: int| 0 <= j < n - 1 implies !touches(
                    #[trigger] here[j],
                    interval,
                ) by {
                    assert(!touches(before[j], interval));
                }
                if touches(here[n - 1], interval) {
                    Some(n - 1)
                } else {
                    None
                }
            },
        }
    }
}

/// What counts for an annotated interval is the first detected segment that touches it.
pub proof fn law_first_counts(detected: Seq<Segment>, interval: SpeechInterval)
    ensures
        is_first_touching(detected, interval, first_touched(detected, interval)),
{
    let hit = lemma_some_is_first(detected, interval, detected.len());
    assert(detected.take(detected.len() as int) =~= detected);
    assert(is_first_touching(detected, interval, hit));
}

/// How many of the first `n` intervals are touched by any segment.
pub open spec fn touched_count(
    speech: Seq<SpeechInterval>,
    detected: Seq<Segment>,
    n: nat,
) -> nat
    decreases n,
{
    if n == 0 {
        0
    } else {
        touched_count(speech, detected, (n - 1) as nat) + if exists|k: int|
            0 <= k < detected.len() && touches(#[trigger] detected[k], speech[n - 1]) {
            1nat
        } else {
            0
        }
    }
}

/// Every annotated interval that is touched counts once, and no other.
pub proof fn law_touched_intervals_count(
    speech: Seq<SpeechInterval>,
    detected: Seq<Segment>,
    n: nat,
)
    requires
        n <= speech.len(),
    ensures
        delays(speech, detected, n).len() == touched_count(speech, detected, n),
        delays(speech, detected, n).len() <= n,
    decreases n,
{
    if n > 0 {
        law_touched_intervals_count(speech, detected, (n - 1) as nat);
        law_first_counts(detected, speech[n - 1]);
    }
}

/// In whole milliseconds that double precision holds exactly, touching and delay are what they
/// are for whole numbers.
pub proof fn law_latency_is_exact(segment: Segment, interval: SpeechInterval)
    requires
        segment.start_ms <= exact_limit(),
        segment.end_ms <= exact_limit(),
        interval.start_ms <= exact_limit(),
        interval.end_ms <= exact_limit(),
    ensures
        touches(segment, interval) <==> segment.start_ms <= interval.end_ms && interval.start_ms
            <= segment.end_ms,
        delay(segment, interval) == from_int(
            Format::Double,
            segment.start_ms - interval.start_ms,
        ),
{
    let d = Format::Double;
    lemma2_to64();
    lemma2_to64_rest();
    law_small_wholes_keep_order(d, segment.start_ms as int, interval.end_ms as int);
    law_small_wholes_keep_order(d, interval.start_ms as int, segment.end_ms as int);
    law_small_wholes_add(d, segment.start_ms as int, interval.start_ms as int);
}

/// The sum of numbers is not larger than the sum of their magnitudes.
proof fn lemma_total_of_magnitudes(xs: Seq<Float>)
    requires
        forall|i: int| 0 <= i < xs.len() ==> (#[trigger] xs[i]) is Finite,
    ensures
        ({
            let all = total(Format::Double, xs);
            let magnitudes = total(Format::Double, xs.map_values(|x: Float| x.absolute()));
            &&& !magnitudes.neg()
            &&& all.absolute().le(magnitudes)
        }),
    decreases xs.len(),
{
    let d = Format::Double;
    let abs = |x: Float| x.absolute();
    let ys = xs.map_values(abs);
    if xs.len() > 0 {
        let before = xs.drop_last();
        assert forall|i: int| 0 <= i < before.len() implies (#[trigger] before[i]) is Finite by {
            assert(xs[i] is Finite);
        }
        lemma_total_of_magnitudes(before);
        assert(ys.drop_last() =~= before.map_values(abs));
        let t = total(d, before);
        let a = total(d, before.map_values(abs));
        let x = xs.last();
        assert(xs[xs.len() - 1] is Finite);
        assert(ys.last() == x.absolute());
        if t is Finite && a is Finite {
            let m = magnitude(t.units() + x.units());
            let n = a.mag() + x.mag();
            assert(m <= n);
            lemma_rounded_order(m, 1, n, 1, d.precision());
        }
    }
}

/// The mean of numbers is not larger than the mean of their magnitudes.
proof fn lemma_mean_of_magnitudes(xs: Seq<Float>)
    requires
        0 < xs.len() <= u64::MAX,
        forall|i: int| 0 <= i < xs.len() ==> (#[trigger] xs[i]) is Finite,
    ensures
        mean(Format::Double, xs).absolute().le(
            mean(Format::Double, xs.map_values(|x: Float| x.absolute())),
        ),
{
    let d = Format::Double;
    let ys = xs.map_values(|x: Float| x.absolute());
    lemma_total_of_magnitudes(xs);
    lemma_u64_is_finite(d, xs.len());
    let n = from_int(d, xs.len() as int);
    let t = total(d, xs);
    let a = total(d, ys);
    lemma_pow2_pos(d.scale());
    if t is Finite && a is Finite {
        let one = d.one();
        assert((t.mag() * one) * n.mag() <= (a.mag() * one) * n.mag()) by (nonlinear_arith)
            requires
                t.mag() <= a.mag(),
        ;
        lemma_rounded_order(t.mag() * one, n.mag(), a.mag() * one, n.mag(), d.precision());
    }
}

/// A delay is a finite number.
proof fn lemma_delay_is_finite(segment: Segment, interval: SpeechInterval)
    ensures
        delay(segment, interval) is Finite,
{
    let d = Format::Double;
    lemma_u64_is_finite(d, segment.start_ms as nat);
    lemma_u64_is_finite(d, interval.start_ms as nat);
    let a = from_int(d, segment.start_ms as int);
    let b = from_int(d, interval.start_ms as int);
    let top = pow2(64) * d.one();
    lemma_pow2_adds(64, d.scale());
    lemma_mul_basics(top as int);
    lemma2_to64();
    lemma_pow2_pos(d.precision());
    lemma_exact_product(d, 1, 64 + d.scale());
    let m = magnitude(a.units() - b.units());
    assert(m <= top);
    lemma_rounded_order(m, 1, top, 1, d.precision());
}

/// Every delay is a finite number.
proof fn lemma_delays_are_finite(
    speech: Seq<SpeechInterval>,
    detected: Seq<Segment>,
    n: nat,
    i: int,
)
    requires
        0 <= i < delays(speech, detected, n).len(),
    ensures
        delays(speech, detected, n)[i] is Finite,
    decreases n,
{
    let earlier = delays(speech, detected, (n - 1) as nat);
    if i < earlier.len() {
        lemma_delays_are_finite(speech, detected, (n - 1) as nat, i);
    } else if let Some(k) = first_touched(detected, speech[n - 1]) {
        lemma_delay_is_finite(detected[k], speech[n - 1]);
    }
}

/// The mean delay is not larger than the mean of the magnitudes of the delays.
pub proof fn law_mean_delay_is_bounded(speech: Seq<SpeechInterval>, detected: Seq<Segment>)
    requires
        delays(speech, detected, speech.len()).len() > 0,
        speech.len() <= u64::MAX,
    ensures
        ({
            let ds = delays(speech, detected, speech.len());
            mean(Format::Double, ds).absolute().le(
                mean(Format::Double, ds.map_values(|d: Float| d.absolute())),
            )
        }),
{
    let ds = delays(speech, detected, speech.len());
    law_touched_intervals_count(speech, detected, speech.len());
    assert forall|i: int| 0 <= i < ds.len() implies (#[trigger] ds[i]) is Finite by {
        lemma_delays_are_finite(speech, detected, speech.len(), i);
    }
    lemma_mean_of_magnitudes(ds);
}

/// How late the first segment that touches an interval starts, in whole milliseconds; `None` where
/// none touches it.
pub open spec fn first_onset(detected: Seq<Segment>, interval: SpeechInterval) -> Option<int>
    decreases detected.len(),
{
    if detected.len() == 0 {
        None
    } else {
        let segment = detected[0];
        if segment.start_ms <= interval.end_ms && interval.start_ms <= segment.end_ms {
            Some(segment.start_ms - interval.start_ms)
        } else {
            first_onset(detected.skip(1), interval)
        }
    }
}

/// How late each annotated interval that is touched is detected, in whole milliseconds.
pub open spec fn onsets(speech: Seq<SpeechInterval>, detected: Seq<Segment>) -> Seq<int>
    decreases speech.len(),
{
    if speech.len() == 0 {
        Seq::empty()
    } else {
        let rest = onsets(speech.skip(1), detected);
        match first_onset(detected, speech[0]) {
            Some(late) => seq![late] + rest,
            None => rest,
        }
    }
}

/// All times can be held exactly.
pub open spec fn in_reach(speech: Seq<SpeechInterval>, detected: Seq<Segment>) -> bool {
    &&& forall|i: int|
        0 <= i < speech.len() ==> (#[trigger] speech[i]).start_ms <= exact_limit()
            && speech[i].end_ms <= exact_limit()
    &&& forall|i: int|
        0 <= i < detected.len() ==> (#[trigger] detected[i]).start_ms <= exact_limit()
            && detected[i].end_ms <= exact_limit()
}

/// The first segment that touches an interval, by index and by what is told of it.
proof fn lemma_first_onset(detected: Seq<Segment>, interval: SpeechInterval, hit: Option<int>)
    requires
        is_first_touching(detected, interval, hit),
        in_reach(seq![interval], detected),
    ensures
        hit is None <==> first_onset(detected, interval) is None,
        hit matches Some(k) ==> first_onset(detected, interval) == Some(
            detected[k].start_ms - interval.start_ms,
        ),
    decreases detected.len(),
{
    let speech = seq![interval];
    assert(speech[0] == interval);
    if detected.len() > 0 {
        law_latency_is_exact(detected[0], interval);
        let rest = detected.skip(1);
        if !touches(detected[0], interval) {
            let later = match hit {
                Some(k) => Some(k - 1),
                None => None,
            };
            assert forall|i: int| 0 <= i < rest.len() implies (#[trigger] rest[i]).start_ms
                <= exact_limit() && rest[i].end_ms <= exact_limit() by {
                assert(rest[i] == detected[i + 1]);
            }
            match hit {
                Some(k) => {
                    assert forall|j: int| 0 <= j < k - 1 implies !touches(
                        #[trigger] rest[j],
                        interval,
                    ) by {
                        assert(!touches(detected[j + 1], interval));
                    }
                    assert(rest[k - 1] == detected[k]);
                },
                None => {
                    assert forall|j: int| 0 <= j < rest.len() implies !touches(
                        #[trigger] rest[j],
                        interval,
                    ) by {
                        assert(!touches(detected[j + 1], interval));
                    }
                },
            }
            lemma_first_onset(rest, interval, later);
        } else if let Some(k) = hit {
            if k > 0 {
                assert(!touches(detected[0], interval));
            }
        }
    }
}

/// Delays from an interval on.
proof fn lemma_onsets_split(speech: Seq<SpeechInterval>, detected: Seq<Segment>)
    requires
        speech.len() > 0,
    ensures
        onsets(speech, detected) == onsets(speech.drop_last(), detected) + match first_onset(
            detected,
            speech.last(),
        ) {
            Some(late) => seq![late],
            None => Seq::empty(),
        },
    decreases speech.len(),
{
    let last = match first_onset(detected, speech.last()) {
        Some(late) => seq![late],
        None => Seq::empty(),
    };
    if speech.len() == 1 {
        assert(speech.drop_last() =~= Seq::empty());
        assert(speech.skip(1) =~= Seq::empty());
        assert(onsets(speech, detected) =~= last);
        assert(onsets(speech.drop_last(), detected) + last =~= last);
    } else {
        let rest = speech.skip(1);
        lemma_onsets_split(rest, detected);
        assert(rest.last() == speech.last());
        assert(rest.drop_last() =~= speech.drop_last().skip(1));
        assert(speech.drop_last()[0] == speech[0]);
        assert(onsets(speech, detected) =~= onsets(speech.drop_last(), detected) + last);
    }
}

/// In whole milliseconds, the delays are how late each annotated interval that is touched at all is
/// detected, in the order of the annotation: by the first segment that touches it.
pub proof fn law_delays_in_whole_ms(speech: Seq<SpeechInterval>, detected: Seq<Segment>)
    requires
        in_reach(speech, detected),
    ensures
        are_wholes(
            Format::Double,
            delays(speech, detected, speech.len()),
            onsets(speech, detected),
        ),
{
    lemma_delays_in_whole_ms(speech, detected, speech.len());
    assert(speech.take(speech.len() as int) =~= speech);
}

/// The delays of the first intervals.
proof fn lemma_delays_in_whole_ms(speech: Seq<SpeechInterval>, detected: Seq<Segment>, n: nat)
    requires
        in_reach(speech, detected),
        n <= speech.len(),
    ensures
        are_wholes(
            Format::Double,
            delays(speech, detected, n),
            onsets(speech.take(n as int), detected),
        ),
    decreases n,
{
    if n > 0 {
        let m = (n - 1) as nat;
        lemma_delays_in_whole_ms(speech, detected, m);
        let interval = speech[n - 1];
        let some = speech.take(n as int);
        assert(some.drop_last() =~= speech.take(n - 1));
        assert(some.last() == interval);
        lemma_onsets_split(some, detected);
        law_first_counts(detected, interval);
        lemma_first_onset(detected, interval, first_touched(detected, interval));
        if let Some(k) = first_touched(detected, interval) {
            law_latency_is_exact(detected[k], interval);
        }
        let ds = delays(speech, detected, n);
        let ws = onsets(some, detected);
        let before = delays(speech, detected, m);
        let fewer = onsets(speech.take(n - 1), detected);
        assert forall|i: int| 0 <= i < ds.len() implies #[trigger] ds[i] == from_int(
            Format::Double,
            ws[i],
        ) by {
            if i < before.len() {
                assert(before[i] == from_int(Format::Double, fewer[i]));
            }
        }
    } else {
        assert(speech.take(0) =~= Seq::empty());
    }
}

/// The magnitudes of whole numbers.
pub open spec fn magnitudes(ws: Seq<int>) -> Seq<int> {
    Seq::new(ws.len(), |i: int| magnitude(ws[i]) as int)
}

/// Magnitudes add up to the size of all.
proof fn lemma_sum_of_magnitudes(ws: Seq<int>)
    ensures
        sum_of(magnitudes(ws)) == size_of_all(ws),
        size_of_all(magnitudes(ws)) == size_of_all(ws),
    decreases ws.len(),
{
    if ws.len() > 0 {
        lemma_sum_of_magnitudes(ws.drop_last());
        assert(magnitudes(ws).drop_last() =~= magnitudes(ws.drop_last()));
    }
}

/// What is told of the delays, in whole milliseconds: their sum, and the sum of their magnitudes,
/// each divided by how many they are. A negative mean tells that speech is detected too early.
#[verifier::rlimit(40)]
pub proof fn law_mean_delays_in_whole_ms(speech: Seq<SpeechInterval>, detected: Seq<Segment>)
    requires
        in_reach(speech, detected),
        size_of_all(onsets(speech, detected)) <= exact_limit(),
        0 < onsets(speech, detected).len() <= exact_limit(),
    ensures
        ({
            let d = Format::Double;
            let ds = delays(speech, detected, speech.len());
            let ws = onsets(speech, detected);
            let sum = sum_of(ws);
            &&& ds.len() == ws.len()
            &&& mean(d, ds) == nearest(d, sum < 0, magnitude(sum) * d.one(), ws.len())
            &&& mean(d, ds.map_values(|x: Float| x.absolute())) == nearest(
                d,
                false,
                size_of_all(ws) * d.one(),
                ws.len(),
            )
        }),
{
    let d = Format::Double;
    let ds = delays(speech, detected, speech.len());
    let ws = onsets(speech, detected);
    let sum = sum_of(ws);
    let one = d.one();
    lemma2_to64();
    lemma2_to64_rest();
    law_delays_in_whole_ms(speech, detected);
    law_total_of_wholes(d, ds, ws);
    lemma_sum_bounded(ws);
    // The mean.
    law_small_whole_is_exact(d, sum);
    law_small_whole_is_exact(d, ws.len() as int);
    lemma_pow2_pos(d.scale());
    let n = ws.len();
    let m = magnitude(sum);
    lemma_rounded_scale(m * one, n, one, 53);
    assert(total(d, ds).mag() == m * one) by {
        assert(magnitude(sum * one) == m * one) by (nonlinear_arith)
            requires
                one > 0,
                m == if sum < 0 {
                    -sum
                } else {
                    sum
                },
                magnitude(sum * one) == if sum * one < 0 {
                    -(sum * one)
                } else {
                    sum * one
                },
        ;
    }
    assert(n * one > 0) by (nonlinear_arith)
        requires
            n > 0,
            one > 0,
    ;
    assert((sum * one < 0) == (sum < 0)) by (nonlinear_arith)
        requires
            one > 0,
    ;
    // The mean of the magnitudes.
    let abs = ds.map_values(|x: Float| x.absolute());
    assert forall|i: int| 0 <= i < abs.len() implies #[trigger] abs[i] == from_int(
        d,
        magnitudes(ws)[i],
    ) by {
        assert(ds[i] == from_int(d, ws[i]));
        assert(magnitude(ws[i]) <= size_of_all(ws));
        law_small_whole_is_exact(d, ws[i]);
        law_small_whole_is_exact(d, magnitudes(ws)[i]);
    }
    lemma_sum_of_magnitudes(ws);
    law_mean_of_wholes(d, abs, magnitudes(ws));
}

} // verus!
