//! How accurate the loudness of samples is.

use crate::engine::{FrameResult, VadEngine};
use crate::float::arith::lemma_format;
use crate::float::laws::{
    law_rounding_error, law_small_wholes_divide, lemma_exact_product, lemma_rounded_order,
};
use crate::float::model::{
    converted, excess, is_root, magnitude, nearest, nearest_root, rounded, square_root, Float,
    Format,
};
use crate::float::root::lemma_root_exists;
use crate::float::rounding::{lemma_excess_range, lemma_pow2_le};
use crate::laws::frames::{law_crossing_rate_counts_changes, sign_changes};
use crate::laws::signal::{law_energy_is_exact, lemma_squares_bounded, sum_of_squares};
use crate::signal::loudness;
use vstd::arithmetic::div_mod::lemma_fundamental_div_mod;
use vstd::arithmetic::power2::{
    lemma2_to64, lemma2_to64_rest, lemma_pow2_adds, lemma_pow2_pos, pow2,
};
use vstd::prelude::*;

verus! {

/// Whether two amounts agree up to `t` parts in 2^24 of the second.
pub open spec fn is_near(a: nat, b: nat, t: nat) -> bool {
    0x100_0000 * magnitude(a - b) <= t * b
}

/// Amounts that agree do so after multiplying both.
pub proof fn lemma_near_scaled(a: nat, b: nat, t: nat, by: nat)
    requires
        is_near(a, b, t),
    ensures
        is_near(a * by, b * by, t),
{
    assert(0x100_0000 * (a * by - b * by) <= t * (b * by) && 0x100_0000 * (b * by - a * by) <= t * (
    b * by)) by (nonlinear_arith)
        requires
            0x100_0000 * (a - b) <= t * b,
            0x100_0000 * (b - a) <= t * b,
            by >= 0,
    ;
}

/// Amounts that agree after multiplying both do so before.
pub proof fn lemma_near_descaled(a: nat, b: nat, t: nat, by: nat)
    requires
        is_near(a * by, b * by, t),
        by > 0,
    ensures
        is_near(a, b, t),
{
    assert(0x100_0000 * (a - b) <= t * b && 0x100_0000 * (b - a) <= t * b) by (nonlinear_arith)
        requires
            0x100_0000 * (a * by - b * by) <= t * (b * by),
            0x100_0000 * (b * by - a * by) <= t * (b * by),
            by > 0,
    ;
}

/// Amounts that agree do so after squaring both.
proof fn lemma_near_squared(a: nat, b: nat)
    requires
        is_near(a, b, 1),
    ensures
        is_near(a * a, b * b, 3),
{
    assert(0x100_0000 * (a * a - b * b) <= 3 * (b * b) && 0x100_0000 * (b * b - a * a) <= 3 * (b
        * b)) by (nonlinear_arith)
        requires
            0x100_0000 * (a - b) <= b,
            0x100_0000 * (b - a) <= b,
            a >= 0,
            b >= 0,
    ;
}

/// Agreement goes on from one amount to the next.
pub proof fn lemma_near_chain(a: nat, b: nat, c: nat, s: nat, t: nat)
    requires
        is_near(a, b, s),
        is_near(b, c, t),
        s <= 16,
        t <= 16,
    ensures
        is_near(a, c, s + t + 1),
{
    assert(s * b <= 16 * b && t * c <= 16 * c) by (nonlinear_arith)
        requires
            s <= 16,
            t <= 16,
            b >= 0,
            c >= 0,
    ;
    assert(s * b <= s * c + c) by (nonlinear_arith)
        requires
            0x100_0000 * (b - c) <= t * c,
            t <= 16,
            s <= 16,
            c >= 0,
            b >= 0,
    ;
    assert((s + t + 1) * c == s * c + t * c + c) by (nonlinear_arith);
}

/// The root of a number is accurate: its square, in units, agrees with the number.
pub proof fn law_root_is_accurate(mag: nat)
    requires
        pow2(1040) <= mag < pow2(1200),
    ensures
        ({
            let root = square_root(Format::Double, Float::Finite { neg: false, mag });
            &&& root is Finite && !root.neg()
            &&& pow2(1040) <= root.mag()
            &&& is_near(root.mag() * root.mag(), mag * Format::Double.one(), 5)
        }),
{
    let f = Format::Double;
    let one = f.one();
    lemma_format(f);
    lemma2_to64();
    lemma2_to64_rest();
    lemma_pow2_pos(f.scale());
    lemma_pow2_pos(1040);
    let x = mag * one;
    assert(x > 0) by (nonlinear_arith)
        requires
            x == mag * one,
            mag > 0,
            one > 0,
    ;
    lemma_root_exists(x);
    let r = choose|r: nat| is_root(r, x);
    let k = excess(r, 53);
    let w = pow2(k);
    lemma_pow2_pos(k);
    lemma_excess_range(r, 53);
    let c = r / w;
    lemma_fundamental_div_mod(r as int, w as int);
    assert(c * w <= r && r < (c + 1) * w) by (nonlinear_arith)
        requires
            r == w * c + r % w,
            0 <= r % w < w,
    ;
    let result = nearest_root(x, r, k) * w;
    assert(result == c * w || result == (c + 1) * w);
    // The root is large.
    let t = pow2(1040);
    lemma_pow2_adds(1040, 1040);
    lemma_pow2_adds(1040, 1074);
    lemma_pow2_le(2080, 2114);
    assert(t * one <= x) by (nonlinear_arith)
        requires
            x == mag * one,
            t <= mag,
            one > 0,
    ;
    assert(r + 1 > t) by (nonlinear_arith)
        requires
            t * t <= x,
            x < (r + 1) * (r + 1),
            r >= 0,
            t >= 0,
    ;
    lemma_pow2_le(53, 1040);
    lemma_excess_of_large(r, k);
    assert(0x100_0000 * w <= r);
    assert((c + 1) * w == c * w + w) by (nonlinear_arith);
    assert(is_near(result, r, 1));
    lemma_near_squared(result, r);
    // Its square is close to the number.
    lemma_pow2_le(30, 1040);
    assert(0x100_0000 * (x - r * r) <= x) by (nonlinear_arith)
        requires
            x < (r + 1) * (r + 1),
            r >= 0x4000_0000,
            r * r <= x,
    ;
    assert(is_near(r * r, x, 1));
    lemma_near_chain(result * result, r * r, x, 3, 1);
    // It is not too large.
    let u = pow2(1200);
    lemma_pow2_adds(1200, 1200);
    lemma_pow2_adds(1200, 1074);
    lemma_pow2_le(2274, 2400);
    assert(x <= u * one) by (nonlinear_arith)
        requires
            x == mag * one,
            mag <= u,
            one > 0,
    ;
    assert(r <= u) by (nonlinear_arith)
        requires
            r * r <= x,
            x <= u * u,
            r >= 0,
            u >= 0,
    ;
    lemma_pow2_adds(1, 1200);
    lemma_pow2_le(1201, 2098);
    assert(result < f.limit());
    // The half of it is large enough.
    lemma_not_below(result, r, t, c, w, k);
}

/// A large number takes more than 53 bits.
proof fn lemma_excess_of_large(r: nat, k: nat)
    requires
        k == excess(r, 53),
        r + 1 > pow2(1040),
    ensures
        0x10_0000_0000_0000 * pow2(k) <= r,
{
    lemma2_to64();
    lemma2_to64_rest();
    lemma_pow2_le(54, 1040);
    lemma_excess_range(r, 53);
    lemma_pow2_adds(52, k);
}

/// A root rounded down is a multiple that is not below a power of two that the root reaches.
proof fn lemma_not_below(result: nat, r: nat, t: nat, c: nat, w: nat, k: nat)
    requires
        t == pow2(1040),
        w == pow2(k),
        c * w <= r < (c + 1) * w,
        r + 1 > t,
        result == c * w || result == (c + 1) * w,
        0x10_0000_0000_0000 * w <= r,
        k == excess(r, 53),
    ensures
        result >= t,
{
    lemma2_to64();
    lemma2_to64_rest();
    lemma_excess_range(r, 53);
    lemma_pow2_pos(k);
    assert(r >= t);
    if k <= 1040 {
        lemma_pow2_adds(k, (1040 - k) as nat);
        let q = pow2((1040 - k) as nat);
        assert(q * w == t) by (nonlinear_arith)
            requires
                w * q == t,
        ;
        assert(c + 1 > q) by (nonlinear_arith)
            requires
                q * w <= r,
                r < (c + 1) * w,
                w > 0,
        ;
        assert(c * w >= q * w) by (nonlinear_arith)
            requires
                c >= q,
                w > 0,
        ;
    } else {
        lemma_pow2_le(1040, k);
        assert(c >= 1) by (nonlinear_arith)
            requires
                0x10_0000_0000_0000 * w <= r,
                r < (c + 1) * w,
                w > 0,
        ;
        assert(c * w >= w) by (nonlinear_arith)
            requires
                c >= 1,
                w > 0,
        ;
    }
    assert((c + 1) * w >= c * w) by (nonlinear_arith)
        requires
            w > 0,
    ;
}

/// The loudness of samples is the root of their mean square: the number of samples times its square
/// is the sum of the squares, up to one part in a million.
pub proof fn law_loudness_is_root_mean_square(samples: Seq<i16>)
    requires
        0 < samples.len() <= 0x80_0000,
        sum_of_squares(samples) > 0,
    ensures
        ({
            let level = loudness(samples);
            let one = Format::Single.one();
            let exact = sum_of_squares(samples) * (one * one);
            &&& level is Finite && !level.neg()
            &&& 1_000_000 * magnitude(samples.len() * (level.mag() * level.mag()) - exact) <= exact
        }),
{
    let d = Format::Double;
    let s = Format::Single;
    let n = samples.len();
    let e = sum_of_squares(samples);
    let big = d.one();
    let one = s.one();
    lemma_format(d);
    lemma_format(s);
    lemma2_to64();
    lemma2_to64_rest();
    lemma_pow2_pos(d.scale());
    lemma_pow2_pos(s.scale());
    law_energy_is_exact(samples);
    lemma_squares_bounded(samples);
    law_small_wholes_divide(d, e, n);
    // The mean square.
    let m = rounded(e * big, n, 53);
    law_rounding_error(e * big, n, 53);
    lemma_pow2_le(48, 1074);
    assert(n <= e * big && big <= e * big && e * big <= (0x4000_0000 * big) * n)
        by (nonlinear_arith)
        requires
            e >= 1,
            e <= n * 0x4000_0000,
            n <= 0x80_0000,
            big >= 0x80_0000,
    ;
    assert(is_near(m * n, e * big, 1));
    lemma_exact_product(d, 0x4000_0000, d.scale());
    lemma_rounded_order(e * big, n, 0x4000_0000 * big, 1, 53);
    lemma_pow2_adds(30, 1074);
    lemma_pow2_le(1104, 1199);
    vstd::arithmetic::power2::lemma_pow2_unfold(1200);
    lemma_pow2_pos(1199);
    // It is not too small.
    lemma_pow2_adds(34, 1040);
    lemma_pow2_pos(1040);
    lemma_exact_product(d, 1, 1040);
    assert((1 * pow2(1040)) * n <= (e * big) * 1) by (nonlinear_arith)
        requires
            n <= 0x80_0000,
            big == pow2(34) * pow2(1040),
            pow2(34) >= 0x80_0000,
            e >= 1,
            pow2(1040) > 0,
    ;
    lemma_rounded_order(1 * pow2(1040), 1, e * big, n, 53);
    // Its root.
    law_root_is_accurate(m);
    let root = square_root(d, Float::Finite { neg: false, mag: m });
    let r = root.mag();
    // In single precision.
    let l = rounded(r * one, big, 24);
    law_rounding_error(r * one, big, 24);
    lemma_pow2_adds(115, 1074);
    lemma_pow2_adds(1040, 149);
    lemma_pow2_le(30, 115);
    assert(r * one >= pow2(1040) * one) by (nonlinear_arith)
        requires
            r >= pow2(1040),
            one >= 0,
    ;
    assert(pow2(115) * big >= 0x80_0000 * big) by (nonlinear_arith)
        requires
            pow2(115) >= 0x80_0000,
            big > 0,
    ;
    assert(is_near(l * big, r * one, 1));
    // It is not too large.
    crate::laws::frames::law_loudness_in_whole_numbers(samples, 0x8000);
    crate::float::laws::law_small_whole_is_exact(s, 0x8000);
    assert(n * 0x4000_0000 == n * (0x8000 * 0x8000));
    assert(loudness(samples) == converted(d, s, root));
    assert(loudness(samples) == (Float::Finite { neg: false, mag: l }));
    lemma_all_errors(e, n, m, r, l, one, big);
}

/// How the errors add up: of the mean square, of its root and of the conversion.
proof fn lemma_all_errors(e: nat, n: nat, m: nat, r: nat, l: nat, one: nat, big: nat)
    requires
        is_near(m * n, e * big, 1),
        is_near(r * r, m * big, 5),
        is_near(l * big, r * one, 1),
        big > 0,
    ensures
        1_000_000 * magnitude(n * (l * l) - e * (one * one)) <= e * (one * one),
{
    let o2 = one * one;
    let b2 = big * big;
    lemma_near_squared(l * big, r * one);
    assert((r * one) * (r * one) == (r * r) * o2) by (nonlinear_arith)
        requires
            o2 == one * one,
    ;
    lemma_near_scaled(r * r, m * big, 5, o2);
    lemma_near_chain((l * big) * (l * big), (r * r) * o2, (m * big) * o2, 3, 5);
    lemma_near_scaled((l * big) * (l * big), (m * big) * o2, 9, n);
    let t = big * o2;
    lemma_near_scaled(m * n, e * big, 1, t);
    assert(((m * big) * o2) * n == (m * n) * t) by (nonlinear_arith)
        requires
            t == big * o2,
    ;
    lemma_near_chain(((l * big) * (l * big)) * n, (m * n) * t, (e * big) * t, 9, 1);
    assert(((l * big) * (l * big)) * n == (n * (l * l)) * b2) by (nonlinear_arith)
        requires
            b2 == big * big,
    ;
    assert((e * big) * t == (e * o2) * b2) by (nonlinear_arith)
        requires
            t == big * o2,
            b2 == big * big,
    ;
    assert(b2 > 0) by (nonlinear_arith)
        requires
            b2 == big * big,
            big > 0,
    ;
    lemma_near_descaled(n * (l * l), e * o2, 11, b2);
}

/// What an engine tells of a frame is measured on the frame as it came, not on what the filter
/// makes of it: its sign changes per sample, and the root of its mean square.
pub proof fn law_engine_measures_frame_as_it_came(
    before: VadEngine,
    frame: Seq<i16>,
    after: VadEngine,
    r: FrameResult,
)
    requires
        before.takes_frame(frame, after, r),
        2 <= frame.len() <= 0x10_0000,
        sum_of_squares(frame) > 0,
    ensures
        ({
            let one = Format::Single.one();
            let level = r.rms@.mag();
            let exact = sum_of_squares(frame) * (one * one);
            &&& r.zcr@ == nearest(Format::Single, false, sign_changes(frame) * one, frame.len())
            &&& r.rms@ is Finite && !r.rms@.neg()
            &&& 1_000_000 * magnitude(frame.len() * (level * level) - exact) <= exact
            &&& after.scored().last() == r.score@
        }),
{
    law_loudness_is_root_mean_square(frame);
    law_crossing_rate_counts_changes(frame);
}

} // verus!
