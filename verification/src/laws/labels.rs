//! Laws of the marking of frames by an annotation.

use crate::engine::{frame_length, FRAME_MS, FRAME_SIZE};
use crate::float::arith::lemma_format;
use crate::float::binary64::Binary64;
use crate::float::laws::{
    law_small_whole_is_exact, law_small_wholes_add, law_small_wholes_divide,
    law_small_wholes_keep_order, law_small_wholes_multiply, lemma_exact_product,
    lemma_rounded_scale,
};
use crate::float::model::{
    decoded, from_int, greater, infinite_bits, lesser, product, Float, Format,
};
use crate::float::rounding::lemma_scale_lt;
use crate::metrics::{
    frame_end, frame_start, interval_covers, is_speech_frame, milliseconds, overlap, SpeechInterval,
    HALF_BITS,
};
use crate::sorting::lemma_same_things;
use vstd::arithmetic::mul::lemma_mul_basics;
use vstd::arithmetic::power2::{
    lemma2_to64, lemma2_to64_rest, lemma_pow2_adds, lemma_pow2_pos, pow2,
};
use vstd::prelude::*;

verus! {

/// 2^53: up to here whole numbers are exact in double precision.
pub open spec fn exact_limit() -> nat {
    9_007_199_254_740_992
}

/// How many milliseconds of an interval fall into a frame of `length` milliseconds; negative where
/// they are apart.
pub open spec fn shared_ms(length: nat, frame: nat, interval: SpeechInterval) -> int {
    let start = frame * length;
    let end = (frame + 1) * length;
    (if end <= interval.end_ms {
        end as int
    } else {
        interval.end_ms as int
    }) - (if start >= interval.start_ms {
        start as int
    } else {
        interval.start_ms as int
    })
}

/// Half of a small whole number is exact.
proof fn lemma_half(m: nat)
    requires
        0 < m <= exact_limit(),
    ensures
        product(Format::Double, from_int(Format::Double, m as int), Binary64 { bits: HALF_BITS }@)
            == (Float::Finite { neg: false, mag: m * pow2(1073) }),
        Format::Double.one() == 2 * pow2(1073),
{
    let d = Format::Double;
    lemma2_to64();
    lemma2_to64_rest();
    vstd::arithmetic::power2::lemma_pow2_unfold(1074);
    lemma_pow2_adds(52, 1021);
    let half = Binary64 { bits: HALF_BITS }@;
    assert(half == (Float::Finite { neg: false, mag: pow2(1073) })) by {
        let bits = (HALF_BITS % 0x8000_0000_0000_0000) as nat;
        assert(bits == 1022 * 4503599627370496);
        assert(bits / 4503599627370496 == 1022 && bits % 4503599627370496 == 0);
        lemma_format(d);
        assert(bits < infinite_bits(d));
        assert(decoded(d, bits) == (pow2(52) + 0) * pow2(1021));
    }
    law_small_whole_is_exact(d, m as int);
    let one = d.one();
    let h = pow2(1073);
    assert((m * one) * h == (m * h) * one) by (nonlinear_arith);
    lemma_pow2_pos(1073);
    lemma_mul_basics(one as int);
    lemma_rounded_scale(m * h, 1, one, 53);
    lemma_exact_product(d, m, 1073);
}

/// A frame is marked by an interval exactly when the interval overlaps at least half of it: with
/// whole milliseconds, which double precision holds exactly, nothing is lost to rounding.
pub proof fn law_half_a_frame_counts(length: nat, frame: nat, interval: SpeechInterval)
    requires
        length > 0,
        (frame + 1) * length <= exact_limit(),
        interval.start_ms <= exact_limit(),
        interval.end_ms <= exact_limit(),
    ensures
        interval_covers(from_int(Format::Double, length as int), frame, interval) <==> 2
            * shared_ms(length, frame, interval) >= length,
{
    let d = Format::Double;
    lemma2_to64();
    lemma2_to64_rest();
    let a = frame * length;
    let b = (frame + 1) * length;
    assert(a + length == b && frame <= a && length <= b && a >= 0) by (nonlinear_arith)
        requires
            a == frame * length,
            b == (frame + 1) * length,
            length > 0,
            frame >= 0,
    ;
    let m = from_int(d, length as int);
    law_small_wholes_multiply(d, frame as int, length as int);
    law_small_wholes_add(d, a as int, length as int);
    assert(frame_start(m, frame) == from_int(d, a as int));
    assert(frame_end(m, frame) == from_int(d, b as int));
    let s = interval.start_ms as int;
    let e = interval.end_ms as int;
    law_small_wholes_keep_order(d, b as int, e);
    law_small_wholes_keep_order(d, e, b as int);
    law_small_wholes_keep_order(d, a as int, s);
    law_small_whole_is_exact(d, a as int);
    law_small_whole_is_exact(d, b as int);
    law_small_whole_is_exact(d, s);
    law_small_whole_is_exact(d, e);
    let upper = if b <= e {
        b as int
    } else {
        e
    };
    let lower = if a >= s {
        a as int
    } else {
        s
    };
    assert(lesser(frame_end(m, frame), milliseconds(e as nat)) == from_int(d, upper));
    assert(greater(frame_start(m, frame), milliseconds(s as nat)) == from_int(d, lower));
    law_small_wholes_add(d, upper, lower);
    let shared = shared_ms(length, frame, interval);
    assert(shared == upper - lower);
    let common = overlap(m, frame, milliseconds(s as nat), milliseconds(e as nat));
    assert(common == from_int(d, shared));
    law_small_whole_is_exact(d, shared);
    lemma_half(length);
    let h = pow2(1073);
    let one = d.one();
    lemma_pow2_pos(1073);
    assert(shared * one == (2 * shared) * h) by (nonlinear_arith)
        requires
            one == 2 * h,
    ;
    lemma_scale_lt(length as int, 2 * shared, h as int);
    lemma_scale_lt(0, shared, one as int);
    lemma_mul_basics(one as int);
}

/// A frame is exactly 16 milliseconds long.
pub proof fn law_frame_is_sixteen_ms()
    ensures
        frame_length() == from_int(Format::Double, 16),
        frame_length() == (Binary64 { bits: FRAME_MS })@,
{
    let d = Format::Double;
    lemma2_to64();
    lemma2_to64_rest();
    lemma_format(d);
    assert(Binary64 { bits: FRAME_MS }@ == (Float::Finite { neg: false, mag: 16 * pow2(1074) })) by {
        let bits = FRAME_MS as nat;
        assert(bits == 1027 * 4503599627370496);
        assert(bits / 4503599627370496 == 1027 && bits % 4503599627370496 == 0);
        lemma_pow2_adds(52, 1026);
        lemma_pow2_adds(4, 1074);
        assert(decoded(d, bits) == (pow2(52) + 0) * pow2(1026));
    }
    law_small_wholes_multiply(d, FRAME_SIZE as int, 1000);
    law_small_wholes_divide(d, 256_000, 16_000);
    law_small_whole_is_exact(d, 16);
    let one = d.one();
    assert(256_000 * one == (16 * one) * 16_000) by (nonlinear_arith);
    lemma_rounded_scale(16 * one, 1, 16_000, 53);
    lemma_exact_product(d, 16, d.scale());
}

/// A frame of a recording counts as speech exactly when some annotated interval overlaps it by at
/// least eight milliseconds.
pub proof fn law_frame_is_speech_by_half(frame: nat, speech: Seq<SpeechInterval>)
    requires
        (frame + 1) * 16 <= exact_limit(),
        forall|i: int|
            0 <= i < speech.len() ==> (#[trigger] speech[i]).start_ms <= exact_limit()
                && speech[i].end_ms <= exact_limit(),
    ensures
        is_speech_frame(frame_length(), frame, speech) <==> exists|i: int|
            0 <= i < speech.len() && shared_ms(16, frame, #[trigger] speech[i]) >= 8,
{
    law_frame_is_sixteen_ms();
    assert forall|i: int| 0 <= i < speech.len() implies (interval_covers(
        frame_length(),
        frame,
        #[trigger] speech[i],
    ) <==> shared_ms(16, frame, speech[i]) >= 8) by {
        law_half_a_frame_counts(16, frame, speech[i]);
    }
}

/// With frames of any whole number of milliseconds: a frame counts as speech exactly when some
/// annotated interval shares at least half of it.
pub proof fn law_frame_of_any_length_is_speech_by_half(
    length: nat,
    frame: nat,
    speech: Seq<SpeechInterval>,
)
    requires
        length > 0,
        (frame + 1) * length <= exact_limit(),
        forall|i: int|
            0 <= i < speech.len() ==> (#[trigger] speech[i]).start_ms <= exact_limit()
                && speech[i].end_ms <= exact_limit(),
    ensures
        is_speech_frame(from_int(Format::Double, length as int), frame, speech) <==> exists|i: int|
            0 <= i < speech.len() && 2 * shared_ms(length, frame, #[trigger] speech[i]) >= length,
{
    let frame_ms = from_int(Format::Double, length as int);
    assert forall|i: int| 0 <= i < speech.len() implies (interval_covers(
        frame_ms,
        frame,
        #[trigger] speech[i],
    ) <==> 2 * shared_ms(length, frame, speech[i]) >= length) by {
        law_half_a_frame_counts(length, frame, speech[i]);
    }
}

/// The order of the annotated intervals does not matter.
pub proof fn law_order_is_irrelevant(
    frame_ms: Float,
    frame: nat,
    a: Seq<SpeechInterval>,
    b: Seq<SpeechInterval>,
)
    requires
        a.to_multiset() == b.to_multiset(),
    ensures
        is_speech_frame(frame_ms, frame, a) == is_speech_frame(frame_ms, frame, b),
{
    lemma_same_things(a, b);
    lemma_covered_elsewhere(frame_ms, frame, a, b);
    lemma_covered_elsewhere(frame_ms, frame, b, a);
}

/// A frame that is speech stays so where the same intervals are found.
proof fn lemma_covered_elsewhere(
    frame_ms: Float,
    frame: nat,
    a: Seq<SpeechInterval>,
    b: Seq<SpeechInterval>,
)
    requires
        forall|i: int| 0 <= i < a.len() ==> b.contains(#[trigger] a[i]),
    ensures
        is_speech_frame(frame_ms, frame, a) ==> is_speech_frame(frame_ms, frame, b),
{
    if is_speech_frame(frame_ms, frame, a) {
        let i = choose|i: int|
            0 <= i < a.len() && interval_covers(frame_ms, frame, #[trigger] a[i]);
        let j = choose|j: int| 0 <= j < b.len() && b[j] == a[i];
        assert(interval_covers(frame_ms, frame, b[j]));
    }
}

/// Annotating more speech never takes a label away.
pub proof fn law_more_speech_keeps_labels(
    frame_ms: Float,
    frame: nat,
    speech: Seq<SpeechInterval>,
    more: Seq<SpeechInterval>,
)
    requires
        is_speech_frame(frame_ms, frame, speech),
    ensures
        is_speech_frame(frame_ms, frame, speech + more),
{
    assert forall|i: int| 0 <= i < speech.len() implies (speech + more).contains(
        #[trigger] speech[i],
    ) by {
        assert((speech + more)[i] == speech[i]);
    }
    lemma_covered_elsewhere(frame_ms, frame, speech, speech + more);
}

} // verus!
