//! Laws of the comparison of predictions with labels.

use crate::float::laws::{
    law_proper_fraction, law_small_whole_is_exact, law_small_wholes_add, law_small_wholes_multiply,
    lemma_exact_product, lemma_one_is_exact, lemma_rounded_order, lemma_rounded_scale,
    lemma_u64_is_finite,
};
use crate::float::model::{excess, from_int, nearest, product, rounded, sum, Float, Format};
use crate::float::ops::lemma_rounded_zero;
use crate::float::rounding::{lemma_excess_range, lemma_pow2_le, lemma_quotient_bound};
use crate::metrics::{
    common, false_negatives, false_positives, harmonic, share, tally, true_negatives,
    true_positives,
};
use vstd::arithmetic::mul::lemma_mul_basics;
use vstd::arithmetic::power2::{lemma2_to64, lemma_pow2_adds, lemma_pow2_pos, pow2};
use vstd::prelude::*;

verus! {

/// Every common frame is counted once.
proof fn lemma_tally_total(labels: Seq<bool>, predictions: Seq<bool>, n: nat)
    ensures
        tally(labels, predictions, true, true, n) + tally(labels, predictions, false, true, n)
            + tally(labels, predictions, true, false, n) + tally(
            labels,
            predictions,
            false,
            false,
            n,
        ) == n,
    decreases n,
{
    if n > 0 {
        lemma_tally_total(labels, predictions, (n - 1) as nat);
    }
}

/// Every frame that has a label or a prediction is counted exactly once.
pub proof fn law_counts_add_up(labels: Seq<bool>, predictions: Seq<bool>)
    ensures
        true_positives(labels, predictions) + false_positives(labels, predictions)
            + false_negatives(labels, predictions) + true_negatives(labels, predictions) == (
        if labels.len() >= predictions.len() {
            labels.len()
        } else {
            predictions.len()
        }),
{
    lemma_tally_total(labels, predictions, common(labels, predictions));
}

/// What is counted with labels and predictions swapped.
proof fn lemma_tally_swapped(
    labels: Seq<bool>,
    predictions: Seq<bool>,
    label: bool,
    prediction: bool,
    n: nat,
)
    ensures
        tally(labels, predictions, label, prediction, n) == tally(
            predictions,
            labels,
            prediction,
            label,
            n,
        ),
    decreases n,
{
    if n > 0 {
        lemma_tally_swapped(labels, predictions, label, prediction, (n - 1) as nat);
    }
}

/// Taking the labels for predictions and the predictions for labels swaps the two kinds of errors,
/// and with them precision and recall; what is right stays so, and F1 score and accuracy stay.
pub proof fn law_swapping_swaps_errors(labels: Seq<bool>, predictions: Seq<bool>)
    requires
        labels.len() <= u64::MAX,
        predictions.len() <= u64::MAX,
    ensures
        true_positives(predictions, labels) == true_positives(labels, predictions),
        true_negatives(predictions, labels) == true_negatives(labels, predictions),
        false_positives(predictions, labels) == false_negatives(labels, predictions),
        false_negatives(predictions, labels) == false_positives(labels, predictions),
        ({
            let tp = true_positives(labels, predictions);
            let fp = false_positives(labels, predictions);
            let fn_count = false_negatives(labels, predictions);
            let tn = true_negatives(labels, predictions);
            let swapped_tp = true_positives(predictions, labels);
            let swapped_fp = false_positives(predictions, labels);
            let swapped_fn = false_negatives(predictions, labels);
            let swapped_tn = true_negatives(predictions, labels);
            let precision = share(tp, tp + fp);
            let recall = share(tp, tp + fn_count);
            &&& share(swapped_tp, swapped_tp + swapped_fp) == recall
            &&& share(swapped_tp, swapped_tp + swapped_fn) == precision
            &&& harmonic(recall, precision) == harmonic(precision, recall)
            &&& share(
                swapped_tp + swapped_tn,
                swapped_tp + swapped_fp + swapped_fn + swapped_tn,
            ) == share(tp + tn, tp + fp + fn_count + tn)
        }),
{
    let n = common(labels, predictions);
    law_counts_add_up(labels, predictions);
    law_f1_is_symmetric(
        true_positives(labels, predictions),
        false_positives(labels, predictions),
        false_negatives(labels, predictions),
    );
    lemma_tally_swapped(labels, predictions, true, true, n);
    lemma_tally_swapped(labels, predictions, false, false, n);
    lemma_tally_swapped(labels, predictions, true, false, n);
    lemma_tally_swapped(labels, predictions, false, true, n);
}

/// Whether a number lies between zero and one.
pub open spec fn is_rate(x: Float) -> bool {
    x is Finite && !x.neg() && x.mag() <= Format::Single.one()
}

/// A share of a whole lies between zero and one.
pub proof fn law_share_is_rate(part: nat, whole: nat)
    requires
        part <= whole <= u64::MAX,
    ensures
        is_rate(share(part, whole)),
        whole > 0 ==> rounded(share(part, whole).mag(), 1, 24) == share(part, whole).mag(),
{
    let s = Format::Single;
    lemma_pow2_pos(s.scale());
    if whole > 0 {
        lemma_u64_is_finite(s, whole);
        lemma_u64_is_finite(s, part);
        law_proper_fraction(s, part, whole);
        let x = from_int(s, part as int);
        let y = from_int(s, whole as int);
        lemma_rounded_again(x.mag() * s.one(), y.mag());
    }
}

/// What is rounded to single precision, and is at most one, is its own rounding, and so is twice
/// of it.
proof fn lemma_rounded_again(num: nat, den: nat)
    requires
        den > 0,
        rounded(num, den, 24) <= Format::Single.one(),
    ensures
        rounded(rounded(num, den, 24), 1, 24) == rounded(num, den, 24),
        rounded(2 * rounded(num, den, 24), 1, 24) == 2 * rounded(num, den, 24),
{
    let s = Format::Single;
    let m = rounded(num, den, 24);
    let k = excess(num / den, 24);
    let w = pow2(k);
    lemma_pow2_pos(k);
    let t = den * w;
    assert(t > 0) by (nonlinear_arith)
        requires
            t == den * w,
            den > 0,
            w > 0,
    ;
    let q = crate::float::model::nearest_even(num, t);
    assert(m == q * w);
    if m == 0 {
        lemma_rounded_zero(s, false, 1);
    } else {
        assert(q > 0) by (nonlinear_arith)
            requires
                m == q * w,
                m > 0,
                w > 0,
        ;
        // The multiple has at most 24 bits.
        lemma_excess_range(num / den, 24);
        lemma_pow2_adds(24, k);
        vstd::arithmetic::div_mod::lemma_div_denominator(num as int, den as int, w as int);
        lemma_quotient_bound(num / den, w, pow2(24));
        assert(q <= pow2(24));
        // The spacing is not coarser than one.
        if k > 149 {
            lemma_pow2_le(150, k);
            vstd::arithmetic::power2::lemma_pow2_strictly_increases(149, 150);
            assert(m >= w) by (nonlinear_arith)
                requires
                    m == q * w,
                    q >= 1,
                    w > 0,
            ;
            assert(false);
        }
        lemma_exact_product(s, q, k);
        lemma_exact_product(s, q, k + 1);
        vstd::arithmetic::power2::lemma_pow2_unfold((k + 1) as nat);
        assert(q * pow2((k + 1) as nat) == 2 * m) by (nonlinear_arith)
            requires
                pow2((k + 1) as nat) == 2 * w,
                m == q * w,
        ;
    }
}

/// Precision, recall and accuracy lie between zero and one.
pub proof fn law_rates_are_bounded(tp: nat, fp: nat, fn_count: nat, tn: nat)
    requires
        tp + fp + fn_count + tn <= u64::MAX,
    ensures
        is_rate(share(tp, tp + fp)),
        is_rate(share(tp, tp + fn_count)),
        is_rate(share(tp + tn, tp + fp + fn_count + tn)),
{
    law_share_is_rate(tp, tp + fp);
    law_share_is_rate(tp, tp + fn_count);
    law_share_is_rate(tp + tn, tp + fp + fn_count + tn);
}

/// The F1 score lies between zero and one.
pub proof fn law_f1_is_bounded(tp: nat, fp: nat, fn_count: nat)
    requires
        tp + fp <= u64::MAX,
        tp + fn_count <= u64::MAX,
    ensures
        is_rate(harmonic(share(tp, tp + fp), share(tp, tp + fn_count))),
{
    let s = Format::Single;
    let precision = share(tp, tp + fp);
    let recall = share(tp, tp + fn_count);
    law_share_is_rate(tp, tp + fp);
    law_share_is_rate(tp, tp + fn_count);
    let a = precision.mag();
    let b = recall.mag();
    let one = s.one();
    lemma_pow2_pos(s.scale());
    if a + b > 0 {
        // The sum of the two is positive and at most two.
        let d = rounded(a + b, 1, 24);
        lemma2_to64();
        lemma_exact_product(s, 1, 0);
        lemma_rounded_order(1, 1, a + b, 1, 24);
        lemma_exact_product(s, 2, s.scale());
        lemma_rounded_order(a + b, 1, 2 * one, 1, 24);
        assert(d >= 1 && d <= 2 * one);
        assert(sum(s, precision, recall) == (Float::Finite { neg: false, mag: d }));
        // Twice the one, times the other.
        lemma_twice(tp, tp + fp);
        let c = rounded((2 * a) * b, one, 24);
        assert(((2 * a) * b) * 1 <= (a + b) * one) by (nonlinear_arith)
            requires
                a <= one,
                b <= one,
        ;
        lemma_rounded_order((2 * a) * b, one, a + b, 1, 24);
        assert(c <= d);
        assert((c * one) * 1 <= one * d) by (nonlinear_arith)
            requires
                c <= d,
        ;
        lemma_rounded_order(c * one, d, one, 1, 24);
        lemma_one_is_exact(s);
    }
}

/// Twice a share, computed.
pub proof fn lemma_twice(part: nat, whole: nat)
    requires
        part <= whole <= u64::MAX,
    ensures
        product(Format::Single, from_int(Format::Single, 2), share(part, whole)) == (
        Float::Finite { neg: false, mag: 2 * share(part, whole).mag() }),
{
    let s = Format::Single;
    let one = s.one();
    let a = share(part, whole).mag();
    law_share_is_rate(part, whole);
    lemma_pow2_pos(s.scale());
    lemma2_to64();
    law_small_whole_is_exact(s, 2);
    lemma_exact_product(s, 2, s.scale());
    assert((2 * one) * a == (2 * a) * one) by (nonlinear_arith);
    lemma_mul_basics(one as int);
    lemma_rounded_scale(2 * a, 1, one, 24);
    if whole > 0 {
        lemma_share_doubles(part, whole);
    } else {
        lemma_rounded_zero(s, false, 1);
    }
}

/// The F1 score does not depend on which of precision and recall is which.
pub proof fn law_f1_is_symmetric(tp: nat, fp: nat, fn_count: nat)
    requires
        tp + fp <= u64::MAX,
        tp + fn_count <= u64::MAX,
    ensures
        harmonic(share(tp, tp + fp), share(tp, tp + fn_count)) == harmonic(
            share(tp, tp + fn_count),
            share(tp, tp + fp),
        ),
{
    let a = share(tp, tp + fp).mag();
    let b = share(tp, tp + fn_count).mag();
    law_share_is_rate(tp, tp + fp);
    law_share_is_rate(tp, tp + fn_count);
    lemma_twice(tp, tp + fp);
    lemma_twice(tp, tp + fn_count);
    assert((2 * a) * b == (2 * b) * a) by (nonlinear_arith);
}

/// What is counted in two recordings put together.
proof fn lemma_tally_joined(
    labels: Seq<bool>,
    predictions: Seq<bool>,
    more_labels: Seq<bool>,
    more_predictions: Seq<bool>,
    label: bool,
    prediction: bool,
    n: nat,
)
    requires
        labels.len() == predictions.len(),
        n <= more_labels.len(),
        n <= more_predictions.len(),
    ensures
        tally(
            labels + more_labels,
            predictions + more_predictions,
            label,
            prediction,
            labels.len() + n,
        ) == tally(labels, predictions, label, prediction, labels.len()) + tally(
            more_labels,
            more_predictions,
            label,
            prediction,
            n,
        ),
    decreases n,
{
    if n > 0 {
        lemma_tally_joined(
            labels,
            predictions,
            more_labels,
            more_predictions,
            label,
            prediction,
            (n - 1) as nat,
        );
    } else {
        lemma_tally_beginning(
            labels,
            predictions,
            more_labels,
            more_predictions,
            label,
            prediction,
            labels.len(),
        );
    }
}

/// What is counted in the first of two recordings put together.
proof fn lemma_tally_beginning(
    labels: Seq<bool>,
    predictions: Seq<bool>,
    more_labels: Seq<bool>,
    more_predictions: Seq<bool>,
    label: bool,
    prediction: bool,
    n: nat,
)
    requires
        n <= labels.len(),
        n <= predictions.len(),
    ensures
        tally(labels + more_labels, predictions + more_predictions, label, prediction, n) == tally(
            labels,
            predictions,
            label,
            prediction,
            n,
        ),
    decreases n,
{
    if n > 0 {
        lemma_tally_beginning(
            labels,
            predictions,
            more_labels,
            more_predictions,
            label,
            prediction,
            (n - 1) as nat,
        );
    }
}

/// The counts of two recordings put together, of which the first has a prediction for each label,
/// are the sums of their counts.
pub proof fn law_counts_of_joined_recordings(
    labels: Seq<bool>,
    predictions: Seq<bool>,
    more_labels: Seq<bool>,
    more_predictions: Seq<bool>,
)
    requires
        labels.len() == predictions.len(),
    ensures
        ({
            let l = labels + more_labels;
            let p = predictions + more_predictions;
            &&& true_positives(l, p) == true_positives(labels, predictions) + true_positives(
                more_labels,
                more_predictions,
            )
            &&& false_positives(l, p) == false_positives(labels, predictions) + false_positives(
                more_labels,
                more_predictions,
            )
            &&& false_negatives(l, p) == false_negatives(labels, predictions) + false_negatives(
                more_labels,
                more_predictions,
            )
            &&& true_negatives(l, p) == true_negatives(labels, predictions) + true_negatives(
                more_labels,
                more_predictions,
            )
        }),
{
    let n = common(more_labels, more_predictions);
    assert(common(labels + more_labels, predictions + more_predictions) == labels.len() + n);
    lemma_tally_joined(labels, predictions, more_labels, more_predictions, true, true, n);
    lemma_tally_joined(labels, predictions, more_labels, more_predictions, false, true, n);
    lemma_tally_joined(labels, predictions, more_labels, more_predictions, true, false, n);
    lemma_tally_joined(labels, predictions, more_labels, more_predictions, false, false, n);
}

/// Twice a share is a number of the format.
proof fn lemma_share_doubles(part: nat, whole: nat)
    requires
        0 < whole <= u64::MAX,
        part <= whole,
    ensures
        rounded(2 * share(part, whole).mag(), 1, 24) == 2 * share(part, whole).mag(),
{
    let s = Format::Single;
    lemma_pow2_pos(s.scale());
    lemma_u64_is_finite(s, whole);
    lemma_u64_is_finite(s, part);
    law_proper_fraction(s, part, whole);
    lemma_rounded_again(from_int(s, part as int).mag() * s.one(), from_int(s, whole as int).mag());
}

/// A positive number divided by itself is one.
proof fn lemma_all_of_it(x: nat)
    requires
        x > 0,
    ensures
        nearest(Format::Single, false, x * Format::Single.one(), x) == from_int(Format::Single, 1),
{
    let s = Format::Single;
    lemma_one_is_exact(s);
    lemma_rounded_scale(s.one(), 1, x, 24);
    assert(s.one() * x == x * s.one()) by (nonlinear_arith);
    lemma_mul_basics(x as int);
}

/// The share of all in all is one.
pub proof fn law_all_is_one(n: nat)
    requires
        0 < n <= u64::MAX,
    ensures
        share(n, n) == from_int(Format::Single, 1),
{
    let s = Format::Single;
    lemma_u64_is_finite(s, n);
    lemma_all_of_it(from_int(s, n as int).mag());
}

/// Where predictions and labels agree, nothing is counted as an error.
proof fn lemma_no_errors(labels: Seq<bool>, n: nat)
    ensures
        tally(labels, labels, true, false, n) == 0,
        tally(labels, labels, false, true, n) == 0,
    decreases n,
{
    if n > 0 {
        lemma_no_errors(labels, (n - 1) as nat);
    }
}

/// A label that is set is counted.
proof fn lemma_some_positive(labels: Seq<bool>, i: int, n: nat)
    requires
        0 <= i < n,
        labels[i],
    ensures
        tally(labels, labels, true, true, n) > 0,
    decreases n,
{
    if i < n - 1 {
        lemma_some_positive(labels, i, (n - 1) as nat);
    }
}

/// Predictions that agree with the labels make no errors: every rate is one where there is
/// anything to be right about.
pub proof fn law_agreement_is_perfect(labels: Seq<bool>)
    requires
        labels.len() <= u64::MAX,
    ensures
        ({
            let tp = true_positives(labels, labels);
            let fp = false_positives(labels, labels);
            let fn_count = false_negatives(labels, labels);
            let tn = true_negatives(labels, labels);
            let one = from_int(Format::Single, 1);
            &&& fp == 0 && fn_count == 0
            &&& labels.len() > 0 ==> share(tp + tn, tp + fp + fn_count + tn) == one
            &&& labels.contains(true) ==> {
                &&& share(tp, tp + fp) == one
                &&& share(tp, tp + fn_count) == one
                &&& harmonic(share(tp, tp + fp), share(tp, tp + fn_count)) == one
            }
        }),
{
    let s = Format::Single;
    lemma_no_errors(labels, labels.len());
    law_counts_add_up(labels, labels);
    let tp = true_positives(labels, labels);
    if labels.len() > 0 {
        law_all_is_one(labels.len());
    }
    if labels.contains(true) {
        let i = choose|i: int| 0 <= i < labels.len() && labels[i] == true;
        lemma_some_positive(labels, i, labels.len());
        law_all_is_one(tp);
        lemma2_to64();
        law_small_wholes_add(s, 1, 1);
        law_small_wholes_multiply(s, 2, 1);
        law_small_whole_is_exact(s, 2);
        lemma_pow2_pos(s.scale());
        lemma_all_of_it(from_int(s, 2).mag());
    }
}

} // verus!
