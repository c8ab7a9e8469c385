//! Laws of what a benchmark tells.

use crate::float::arith::lemma_format;
use crate::float::laws::{
    law_proper_fraction, law_small_whole_is_exact, lemma_exact_product, lemma_one_is_exact,
    lemma_rounded_order, lemma_u64_is_finite,
};
use crate::float::model::{from_int, largest, mean, quotient, total, Float, Format};
use crate::laws::classification::{is_rate, law_counts_add_up};
use crate::metrics::{
    false_negatives, false_positives, tally, true_negatives, true_positives, SpeechInterval,
};
use crate::monitor::{most_ram, ResourceSample};
use crate::report::{
    bound32, bound64, exceeds, expected_labels, falls_short, first_failure, percentage,
    BenchSummary, QualityGates,
};
use crate::signal::{count_set, lemma_count_set_bound};
use vstd::arithmetic::mul::lemma_mul_basics;
use vstd::arithmetic::power2::lemma_pow2_pos;
use vstd::prelude::*;

verus! {

/// Predicted speech is right or wrong.
proof fn lemma_predicted(labels: Seq<bool>, predictions: Seq<bool>, n: nat)
    requires
        n <= predictions.len(),
    ensures
        tally(labels, predictions, true, true, n) + tally(labels, predictions, false, true, n)
            == count_set(predictions.take(n as int)),
    decreases n,
{
    if n > 0 {
        lemma_predicted(labels, predictions, (n - 1) as nat);
        assert(predictions.take(n as int).drop_last() =~= predictions.take(n - 1));
    }
}

/// The counts of a row add up: every frame is counted once, and every speech frame is a true or a
/// false positive.
pub proof fn law_row_adds_up(predictions: Seq<bool>, speech: Seq<SpeechInterval>)
    ensures
        ({
            let labels = expected_labels(predictions.len(), speech);
            let tp = true_positives(labels, predictions);
            let fp = false_positives(labels, predictions);
            &&& tp + fp == count_set(predictions)
            &&& tp + fp + false_negatives(labels, predictions) + true_negatives(
                labels,
                predictions,
            ) == predictions.len()
        }),
{
    let labels = expected_labels(predictions.len(), speech);
    law_counts_add_up(labels, predictions);
    lemma_predicted(labels, predictions, predictions.len());
    assert(predictions.take(predictions.len() as int) =~= predictions);
}

/// The share of speech lies between 0 and 100 percent.
pub proof fn law_percentage_is_bounded(predictions: Seq<bool>)
    requires
        predictions.len() <= u64::MAX,
    ensures
        Float::zero().le(percentage(predictions)),
        percentage(predictions).le(from_int(Format::Single, 100)),
{
    let s = Format::Single;
    let one = s.one();
    lemma_format(s);
    lemma_pow2_pos(s.scale());
    law_small_whole_is_exact(s, 100);
    if predictions.len() > 0 {
        lemma_count_set_bound(predictions);
        lemma_u64_is_finite(s, predictions.len());
        law_proper_fraction(s, count_set(predictions), predictions.len());
        let share = quotient(
            s,
            from_int(s, count_set(predictions) as int),
            from_int(s, predictions.len() as int),
        );
        let m = share.mag();
        lemma_exact_product(s, 100, s.scale());
        assert((m * (100 * one)) * 1 <= (100 * one) * one) by (nonlinear_arith)
            requires
                m <= one,
        ;
        lemma_rounded_order(m * (100 * one), one, 100 * one, 1, 24);
    }
}

/// A benchmark passes exactly when it meets every gate that is given.
pub proof fn law_benchmark_passes_every_gate(summary: BenchSummary, gates: QualityGates)
    ensures
        first_failure(summary, gates) is None <==> {
            &&& !falls_short(summary.avg_f1@, bound32(gates.min_f1))
            &&& !falls_short(summary.avg_recall@, bound32(gates.min_recall))
            &&& !falls_short(summary.avg_precision@, bound32(gates.min_precision))
            &&& !exceeds(summary.avg_cpu@, bound32(gates.max_avg_cpu_percent))
            &&& !exceeds(summary.max_ram_mb@, bound64(gates.max_max_ram_mb))
        },
{
}

/// Without gates every benchmark passes.
pub proof fn law_no_gates_no_failure(summary: BenchSummary, gates: QualityGates)
    requires
        gates.min_f1 is None,
        gates.min_recall is None,
        gates.min_precision is None,
        gates.max_avg_cpu_percent is None,
        gates.max_max_ram_mb is None,
    ensures
        first_failure(summary, gates) is None,
{
}

/// The sum of rates is not larger than how many they are.
proof fn lemma_total_of_rates(xs: Seq<Float>)
    requires
        xs.len() <= 0x100_0000,
        forall|i: int| 0 <= i < xs.len() ==> is_rate(#[trigger] xs[i]),
    ensures
        ({
            let all = total(Format::Single, xs);
            all is Finite && !all.neg() && all.mag() <= xs.len() * Format::Single.one()
        }),
    decreases xs.len(),
{
    let s = Format::Single;
    let one = s.one();
    lemma_format(s);
    if xs.len() > 0 {
        let before = xs.drop_last();
        let n = xs.len();
        assert forall|i: int| 0 <= i < before.len() implies is_rate(#[trigger] before[i]) by {
            assert(is_rate(xs[i]));
        }
        lemma_total_of_rates(before);
        assert(is_rate(xs[n - 1]));
        let m = total(s, before).mag() + xs.last().mag();
        assert((n - 1) * one + one == n * one) by (nonlinear_arith);
        lemma_exact_product(s, n, s.scale());
        lemma_rounded_order(m, 1, n * one, 1, 24);
    } else {
        lemma_mul_basics(one as int);
    }
}

/// The mean of rates, of up to 2^24 recordings, lies between zero and one.
pub proof fn law_mean_of_rates_is_rate(xs: Seq<Float>)
    requires
        0 < xs.len() <= 0x100_0000,
        forall|i: int| 0 <= i < xs.len() ==> is_rate(#[trigger] xs[i]),
    ensures
        is_rate(mean(Format::Single, xs)),
{
    let s = Format::Single;
    let one = s.one();
    lemma_format(s);
    lemma_total_of_rates(xs);
    let n = xs.len();
    law_small_whole_is_exact(s, n as int);
    lemma_one_is_exact(s);
    let m = total(s, xs).mag();
    let d = n * one;
    assert(d > 0 && (m * one) * 1 <= one * d) by (nonlinear_arith)
        requires
            m <= d,
            d == n * one,
            n > 0,
            one > 0,
    ;
    lemma_rounded_order(m * one, d, one, 1, 24);
}

/// Nothing is larger than the largest, which is one of the numbers or zero.
pub proof fn law_largest_bounds_all(xs: Seq<Float>)
    ensures
        !largest(xs).is_nan(),
        Float::zero().le(largest(xs)),
        forall|i: int| 0 <= i < xs.len() && !xs[i].is_nan() ==> (#[trigger] xs[i]).le(largest(xs)),
        largest(xs) == Float::zero() || xs.contains(largest(xs)),
    decreases xs.len(),
{
    if xs.len() > 0 {
        let before = xs.drop_last();
        law_largest_bounds_all(before);
        assert forall|i: int| 0 <= i < xs.len() && !xs[i].is_nan() implies (#[trigger] xs[i]).le(
            largest(xs),
        ) by {
            if i < before.len() {
                assert(before[i] == xs[i]);
            }
        }
        if largest(xs) == xs.last() {
            assert(xs[xs.len() - 1] == largest(xs));
        } else if before.contains(largest(xs)) {
            let i = choose|i: int| 0 <= i < before.len() && before[i] == largest(xs);
            assert(xs[i] == largest(xs));
        }
    }
}

/// No measurement took more memory than the most, and one took as much.
pub proof fn law_most_ram_bounds_all(samples: Seq<ResourceSample>)
    ensures
        forall|i: int|
            0 <= i < samples.len() ==> (#[trigger] samples[i]).ram_bytes <= most_ram(samples),
        samples.len() > 0 ==> exists|i: int|
            0 <= i < samples.len() && (#[trigger] samples[i]).ram_bytes == most_ram(samples),
    decreases samples.len(),
{
    if samples.len() > 0 {
        let before = samples.drop_last();
        law_most_ram_bounds_all(before);
        assert forall|i: int| 0 <= i < samples.len() implies (#[trigger] samples[i]).ram_bytes
            <= most_ram(samples) by {
            if i < before.len() {
                assert(before[i] == samples[i]);
            }
        }
        if most_ram(samples) == samples.last().ram_bytes {
            assert(samples[samples.len() - 1].ram_bytes == most_ram(samples));
        } else {
            let i = choose|i: int|
                0 <= i < before.len() && (#[trigger] before[i]).ram_bytes == most_ram(before);
            assert(samples[i].ram_bytes == most_ram(samples));
        }
    }
}

} // verus!
