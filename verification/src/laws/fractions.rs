//! Frames whose length is not a whole number of milliseconds: laws of labels and boundaries in
//! 1024ths of a millisecond.

use crate::float::arith::lemma_format;
use crate::float::binary64::Binary64;
use crate::float::laws::{
    law_small_whole_is_exact, lemma_exact_product, lemma_rounded_scale,
};
use crate::float::model::{
    decoded, difference, infinite_bits, magnitude, product, sum, Float, Format,
};
use crate::float::ops::lemma_rounded_zero;
use crate::float::rounding::lemma_scale_lt;
use crate::laws::labels::exact_limit;
use crate::metrics::{
    boundary_ms, frame_end, frame_start, interval_covers, is_speech_frame, milliseconds, overlap,
    SpeechInterval, HALF_BITS,
};
use vstd::arithmetic::div_mod::lemma_div_denominator;
use vstd::arithmetic::mul::lemma_mul_basics;
use vstd::arithmetic::power2::{
    lemma2_to64, lemma2_to64_rest, lemma_pow2_adds, lemma_pow2_pos, lemma_pow2_unfold, pow2,
};
use vstd::prelude::*;

verus! {

/// So many 1024ths of a millisecond.
pub open spec fn parts(n: nat) -> Float {
    Float::Finite { neg: false, mag: n * pow2(1064) }
}

/// How many 1024ths of a millisecond of an interval fall into a frame of `length` of them; negative
/// where they are apart.
pub open spec fn shared_parts(length: nat, frame: nat, interval: SpeechInterval) -> int {
    let start = frame * length;
    let end = (frame + 1) * length;
    (if end <= 1024 * interval.end_ms {
        end as int
    } else {
        1024 * interval.end_ms
    }) - (if start >= 1024 * interval.start_ms {
        start as int
    } else {
        1024 * interval.start_ms
    })
}

/// A small number of parts is exact.
proof fn lemma_exact_parts(n: nat)
    requires
        n <= exact_limit(),
    ensures
        crate::float::model::rounded(n * pow2(1064), 1, 53) == n * pow2(1064),
        n * pow2(1064) < Format::Double.limit(),
        pow2(1064) > 0,
        Format::Double.one() == 1024 * pow2(1064),
{
    let d = Format::Double;
    lemma_format(d);
    lemma2_to64();
    lemma2_to64_rest();
    lemma_pow2_pos(1064);
    lemma_pow2_adds(10, 1064);
    if n > 0 {
        lemma_exact_product(d, n, 1064);
    } else {
        lemma_mul_basics(pow2(1064) as int);
        lemma_rounded_zero(d, false, 1);
        lemma_exact_product(d, 1, 1064);
    }
}

/// When a frame starts, exactly.
proof fn lemma_start(length: nat, frame: nat)
    requires
        length > 0,
        frame * length <= exact_limit(),
    ensures
        frame_start(parts(length), frame) == parts(frame * length),
{
    let d = Format::Double;
    let one = d.one();
    let u = pow2(1064);
    let n = frame * length;
    lemma_format(d);
    lemma2_to64();
    lemma2_to64_rest();
    assert(frame <= n) by (nonlinear_arith)
        requires
            n == frame * length,
            length > 0,
            frame >= 0,
    ;
    law_small_whole_is_exact(d, frame as int);
    lemma_exact_parts(n);
    assert((frame * one) * (length * u) == (n * u) * one) by (nonlinear_arith)
        requires
            n == frame * length,
    ;
    lemma_mul_basics(one as int);
    lemma_rounded_scale(n * u, 1, one, 53);
}

/// When a frame starts, in whole milliseconds: the nearest to the exact time, and of two that are
/// equally near the later.
pub proof fn law_boundary_is_nearest_ms(length: nat, frame: nat)
    requires
        length > 0,
        frame * length <= exact_limit(),
    ensures
        boundary_ms(parts(length), frame) == (2 * (frame * length) + 1024) / 2048,
{
    let d = Format::Double;
    let one = d.one();
    let u = pow2(1064);
    let n = frame * length;
    lemma_start(length, frame);
    lemma_exact_parts(n);
    let num = 2 * (n * u) + one;
    assert(num == u * (2 * n + 1024) && 2 * one == u * 2048) by (nonlinear_arith)
        requires
            num == 2 * (n * u) + one,
            one == 1024 * u,
    ;
    lemma_div_denominator((u * (2 * n + 1024)) as int, u as int, 2048);
    vstd::arithmetic::div_mod::lemma_div_multiples_vanish((2 * n + 1024) as int, u as int);
}

/// The sum and the difference of small numbers of parts.
proof fn lemma_parts_add(a: nat, b: nat)
    requires
        a <= exact_limit(),
        b <= exact_limit(),
        a + b <= exact_limit(),
    ensures
        sum(Format::Double, parts(a), parts(b)) == parts(a + b),
{
    lemma_exact_parts(a + b);
    let u = pow2(1064);
    assert(a * u + b * u == (a + b) * u) by (nonlinear_arith);
    lemma_mul_basics(u as int);
    assert(a + b == 0 || (a + b) * u > 0) by (nonlinear_arith)
        requires
            u > 0,
            a + b >= 0,
    ;
}

/// The difference of small numbers of parts.
proof fn lemma_parts_subtract(a: nat, b: nat)
    requires
        a <= exact_limit(),
        b <= exact_limit(),
    ensures
        ({
            let r = difference(Format::Double, parts(a), parts(b));
            r is Finite && r.units() == (a - b) * pow2(1064)
        }),
{
    let u = pow2(1064);
    let m = magnitude(a - b);
    lemma_exact_parts(m);
    assert(a * u - b * u == (a - b) * u) by (nonlinear_arith);
    assert(magnitude((a - b) * u) == m * u) by (nonlinear_arith)
        requires
            u > 0,
            m == if a - b < 0 {
                -(a - b)
            } else {
                a - b
            },
            magnitude((a - b) * u) == if (a - b) * u < 0 {
                -((a - b) * u)
            } else {
                (a - b) * u
            },
    ;
}

/// A frame is marked by an interval exactly when the interval overlaps at least half of it,
/// whatever the length of the frame is in 1024ths of a millisecond.
pub proof fn law_half_of_any_frame_counts(length: nat, frame: nat, interval: SpeechInterval)
    requires
        length > 0,
        (frame + 1) * length <= exact_limit(),
        1024 * interval.start_ms <= exact_limit(),
        1024 * interval.end_ms <= exact_limit(),
    ensures
        interval_covers(parts(length), frame, interval) <==> 2 * shared_parts(
            length,
            frame,
            interval,
        ) >= length,
{
    let d = Format::Double;
    let one = d.one();
    let u = pow2(1064);
    lemma_format(d);
    lemma2_to64();
    lemma2_to64_rest();
    let a = frame * length;
    let b = (frame + 1) * length;
    assert(a + length == b && length <= b && a >= 0) by (nonlinear_arith)
        requires
            a == frame * length,
            b == (frame + 1) * length,
            length > 0,
            frame >= 0,
    ;
    lemma_start(length, frame);
    lemma_parts_add(a, length);
    let s = (1024 * interval.start_ms) as nat;
    let e = (1024 * interval.end_ms) as nat;
    law_small_whole_is_exact(d, interval.start_ms as int);
    law_small_whole_is_exact(d, interval.end_ms as int);
    lemma_exact_parts(s);
    lemma_exact_parts(e);
    assert(interval.start_ms * one == s * u && interval.end_ms * one == e * u) by (nonlinear_arith)
        requires
            one == 1024 * u,
            s == 1024 * interval.start_ms,
            e == 1024 * interval.end_ms,
    ;
    let start = milliseconds(interval.start_ms as nat);
    let end = milliseconds(interval.end_ms as nat);
    lemma_times(interval.start_ms as nat, s);
    lemma_times(interval.end_ms as nat, e);
    assert(start == parts(s) && end == parts(e));
    let m = parts(length);
    assert(frame_start(m, frame) == parts(a));
    assert(frame_end(m, frame) == parts(b));
    lemma_scale_lt(e as int, b as int, u as int);
    lemma_scale_lt(a as int, s as int, u as int);
    let upper = if b <= e {
        b
    } else {
        e
    };
    let lower = if a >= s {
        a
    } else {
        s
    };
    assert(crate::float::model::lesser(parts(b), parts(e)) == parts(upper));
    assert(crate::float::model::greater(parts(a), parts(s)) == parts(lower));
    lemma_parts_subtract(upper, lower);
    let common = overlap(m, frame, start, end);
    let shared = upper - lower;
    assert(common.units() == shared * u);
    lemma_half_of_parts(length);
    let h = pow2(1063);
    assert(shared * u == (2 * shared) * h) by (nonlinear_arith)
        requires
            u == 2 * h,
    ;
    lemma_scale_lt(2 * shared, length as int, h as int);
    lemma_scale_lt(0, shared, u as int);
    lemma_mul_basics(u as int);
}

/// A time in whole milliseconds, in parts.
proof fn lemma_times(ms: nat, n: nat)
    requires
        n == 1024 * ms,
        n <= exact_limit(),
    ensures
        milliseconds(ms) == parts(n),
{
    let d = Format::Double;
    let one = d.one();
    let u = pow2(1064);
    lemma_format(d);
    lemma2_to64();
    lemma2_to64_rest();
    law_small_whole_is_exact(d, ms as int);
    lemma_exact_parts(n);
    assert(ms * one == n * u) by (nonlinear_arith)
        requires
            one == 1024 * u,
            n == 1024 * ms,
    ;
}

/// Half of the length of a frame.
proof fn lemma_half_of_parts(length: nat)
    requires
        0 < length <= exact_limit(),
    ensures
        product(Format::Double, parts(length), Binary64 { bits: HALF_BITS }@) == (Float::Finite {
            neg: false,
            mag: length * pow2(1063),
        }),
        pow2(1064) == 2 * pow2(1063),
        pow2(1063) > 0,
{
    let d = Format::Double;
    let one = d.one();
    lemma_format(d);
    lemma2_to64();
    lemma2_to64_rest();
    lemma_pow2_unfold(1064);
    lemma_pow2_unfold(1074);
    lemma_pow2_adds(52, 1021);
    lemma_pow2_pos(1063);
    lemma_pow2_pos(1073);
    let half = Binary64 { bits: HALF_BITS }@;
    assert(half == (Float::Finite { neg: false, mag: pow2(1073) })) by {
        let bits = (HALF_BITS % 0x8000_0000_0000_0000) as nat;
        assert(bits == 1022 * 4503599627370496);
        assert(bits / 4503599627370496 == 1022 && bits % 4503599627370496 == 0);
        assert(bits < infinite_bits(d));
        assert(decoded(d, bits) == (pow2(52) + 0) * pow2(1021));
    }
    let g = pow2(1073);
    let h = pow2(1063);
    assert((length * (2 * h)) * g == (length * h) * one) by (nonlinear_arith)
        requires
            one == 2 * g,
    ;
    lemma_mul_basics(one as int);
    lemma_rounded_scale(length * h, 1, one, 53);
    lemma_exact_product(d, length, 1063);
}

/// A frame of any length counts as speech exactly when some annotated interval shares at least half
/// of it.
pub proof fn law_frame_of_any_length_is_speech(
    length: nat,
    frame: nat,
    speech: Seq<SpeechInterval>,
)
    requires
        length > 0,
        (frame + 1) * length <= exact_limit(),
        forall|i: int|
            0 <= i < speech.len() ==> 1024 * (#[trigger] speech[i]).start_ms <= exact_limit()
                && 1024 * speech[i].end_ms <= exact_limit(),
    ensures
        is_speech_frame(parts(length), frame, speech) <==> exists|i: int|
            0 <= i < speech.len() && 2 * shared_parts(length, frame, #[trigger] speech[i])
                >= length,
{
    assert forall|i: int| 0 <= i < speech.len() implies (interval_covers(
        parts(length),
        frame,
        #[trigger] speech[i],
    ) <==> 2 * shared_parts(length, frame, speech[i]) >= length) by {
        law_half_of_any_frame_counts(length, frame, speech[i]);
    }
}

} // verus!
