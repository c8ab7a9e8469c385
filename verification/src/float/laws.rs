//! Laws of the arithmetic: rounding keeps order, and exact results stay exact.

use crate::float::model::{
    difference, excess, from_int, is_root, magnitude, nearest, nearest_even, nearest_root, product, quotient,
    rounded, settled, square_root, sum, Float, Format,
};
use crate::float::ops::lemma_rounded_zero;
use crate::float::rounding::{
    lemma_excess_range, lemma_nearest_even_parts, lemma_nearest_even_scale, lemma_pow2_le,
    lemma_quotient_bound, lemma_round_exact, lemma_scale_lt,
};
use vstd::arithmetic::div_mod::{lemma_div_denominator, lemma_fundamental_div_mod};
use vstd::arithmetic::mul::lemma_mul_basics;
use vstd::arithmetic::power2::{
    lemma2_to64, lemma_pow2_adds, lemma_pow2_pos, lemma_pow2_unfold, pow2,
};
use vstd::prelude::*;

verus! {

/// Of two fractions, the larger has the larger whole part.
proof fn lemma_whole_part_order(n1: nat, d1: nat, n2: nat, d2: nat)
    requires
        d1 > 0,
        d2 > 0,
        n1 * d2 <= n2 * d1,
    ensures
        n1 / d1 <= n2 / d2,
{
    let q1 = n1 / d1;
    lemma_fundamental_div_mod(n1 as int, d1 as int);
    assert((q1 * d2) * d1 <= n2 * d1) by (nonlinear_arith)
        requires
            n1 == d1 * q1 + n1 % d1,
            n1 % d1 >= 0,
            n1 * d2 <= n2 * d1,
    ;
    lemma_scale_lt((q1 * d2) as int, n2 as int, d1 as int);
    lemma_quotient_bound(n2, d2, q1);
}

/// Rounding to a whole number keeps the order of fractions.
proof fn lemma_nearest_even_order(n1: nat, d1: nat, n2: nat, d2: nat)
    requires
        d1 > 0,
        d2 > 0,
        n1 * d2 <= n2 * d1,
    ensures
        nearest_even(n1, d1) <= nearest_even(n2, d2),
{
    lemma_whole_part_order(n1, d1, n2, d2);
    let q1 = n1 / d1;
    let q2 = n2 / d2;
    let r1 = n1 % d1;
    let r2 = n2 % d2;
    lemma_fundamental_div_mod(n1 as int, d1 as int);
    lemma_fundamental_div_mod(n2 as int, d2 as int);
    if q1 == q2 {
        assert(r1 * d2 <= r2 * d1) by (nonlinear_arith)
            requires
                n1 == d1 * q1 + r1,
                n2 == d2 * q1 + r2,
                n1 * d2 <= n2 * d1,
        ;
        assert(2 * r1 > d1 ==> 2 * r2 > d2) by (nonlinear_arith)
            requires
                r1 * d2 <= r2 * d1,
                d1 > 0,
                d2 > 0,
        ;
        assert(2 * r1 == d1 ==> 2 * r2 >= d2) by (nonlinear_arith)
            requires
                r1 * d2 <= r2 * d1,
                d1 > 0,
                d2 > 0,
        ;
    }
}

/// Rounding to significant bits keeps the order of fractions.
pub proof fn lemma_rounded_order(n1: nat, d1: nat, n2: nat, d2: nat, p: nat)
    requires
        d1 > 0,
        d2 > 0,
        p >= 1,
        n1 * d2 <= n2 * d1,
    ensures
        rounded(n1, d1, p) <= rounded(n2, d2, p),
{
    lemma_whole_part_order(n1, d1, n2, d2);
    let q1 = n1 / d1;
    let q2 = n2 / d2;
    let k1 = excess(q1, p);
    let k2 = excess(q2, p);
    lemma_excess_range(q1, p);
    lemma_excess_range(q2, p);
    if k1 > k2 {
        lemma_pow2_le(p + k2, (p - 1 + k1) as nat);
        assert(false);
    }
    let w1 = pow2(k1);
    let w2 = pow2(k2);
    lemma_pow2_pos(k1);
    lemma_pow2_pos(k2);
    let t1 = d1 * w1;
    let t2 = d2 * w2;
    assert(t1 > 0 && t2 > 0) by (nonlinear_arith)
        requires
            t1 == d1 * w1,
            t2 == d2 * w2,
            d1 > 0,
            d2 > 0,
            w1 > 0,
            w2 > 0,
    ;
    let a1 = nearest_even(n1, t1);
    let a2 = nearest_even(n2, t2);
    if k1 == k2 {
        assert(n1 * t2 <= n2 * t1) by (nonlinear_arith)
            requires
                n1 * d2 <= n2 * d1,
                t1 == d1 * w1,
                t2 == d2 * w1,
                w1 > 0,
        ;
        lemma_nearest_even_order(n1, t1, n2, t2);
        assert(a1 * w1 <= a2 * w1) by (nonlinear_arith)
            requires
                a1 <= a2,
        ;
    } else {
        // The smaller one stays below its binade's end, the larger at or above its start.
        lemma_div_denominator(n1 as int, d1 as int, w1 as int);
        lemma_pow2_adds(p, k1);
        lemma_quotient_bound(q1, w1, pow2(p));
        assert(a1 <= pow2(p));
        assert(a1 * w1 <= pow2(p + k1)) by (nonlinear_arith)
            requires
                a1 <= pow2(p),
                pow2(p + k1) == pow2(p) * w1,
        ;
        lemma_pow2_le(p + k1, (p - 1 + k2) as nat);
        lemma_div_denominator(n2 as int, d2 as int, w2 as int);
        lemma_pow2_adds((p - 1) as nat, k2);
        lemma_quotient_bound(q2, w2, pow2((p - 1) as nat));
        assert(a2 >= pow2((p - 1) as nat));
        assert(a2 * w2 >= pow2((p - 1 + k2) as nat)) by (nonlinear_arith)
            requires
                a2 >= pow2((p - 1) as nat),
                pow2((p - 1 + k2) as nat) == pow2((p - 1) as nat) * w2,
        ;
    }
}

/// Settling keeps order: of two magnitudes with the same sign the larger is the larger number
/// where the sign is positive.
pub proof fn lemma_settled_order(f: Format, a: nat, b: nat)
    requires
        a <= b,
    ensures
        settled(f, false, a).le(settled(f, false, b)),
        settled(f, true, b).le(settled(f, true, a)),
        settled(f, true, a).le(settled(f, false, b)),
        settled(f, true, b).le(settled(f, false, a)),
{
}

/// A larger whole number converts to a number that is not smaller.
pub proof fn law_conversion_keeps_order(f: Format, a: nat, b: nat)
    requires
        a <= b,
    ensures
        from_int(f, a as int).le(from_int(f, b as int)),
{
    let one = f.one();
    lemma_pow2_pos(f.scale());
    let x = a * one;
    let y = b * one;
    assert(x <= y && (x == 0 <==> a == 0) && (y == 0 <==> b == 0)) by (nonlinear_arith)
        requires
            a <= b,
            x == a * one,
            y == b * one,
            one > 0,
            a >= 0,
    ;
    lemma_rounded_order(x, 1, y, 1, f.precision());
    lemma_settled_order(f, rounded(x, 1, f.precision()), rounded(y, 1, f.precision()));
    lemma_pow2_pos(f.precision() + f.top());
}

/// Multiplying a larger factor that is not negative with a factor that is not negative gives a
/// product that is not smaller.
pub proof fn law_product_keeps_order(f: Format, a: Float, b: Float, c: Float)
    requires
        a is Finite && b is Finite && c is Finite,
        !a.neg() && !b.neg() && !c.neg(),
        a.le(b),
    ensures
        product(f, a, c).le(product(f, b, c)),
{
    let one = f.one();
    lemma_pow2_pos(f.scale());
    let x = a.mag() * c.mag();
    let y = b.mag() * c.mag();
    assert(x * one <= y * one) by (nonlinear_arith)
        requires
            x == a.mag() * c.mag(),
            y == b.mag() * c.mag(),
            a.mag() <= b.mag(),
            one > 0,
    ;
    lemma_rounded_order(x, one, y, one, f.precision());
    lemma_settled_order(f, rounded(x, one, f.precision()), rounded(y, one, f.precision()));
}

/// Taking something at least as large away never leaves anything positive.
pub proof fn law_difference_sign(f: Format, a: Float, b: Float)
    requires
        a.le(b),
    ensures
        !Float::zero().lt(difference(f, a, b)),
{
}

/// A quotient of two whole numbers, of which the second is the larger and positive, lies between
/// zero and one.
pub proof fn law_proper_fraction(f: Format, a: nat, b: nat)
    requires
        a <= b,
        b > 0,
        from_int(f, b as int) is Finite,
    ensures
        ({
            let q = quotient(f, from_int(f, a as int), from_int(f, b as int));
            &&& q is Finite
            &&& !q.neg()
            &&& 0 <= q.mag() <= f.one()
        }),
{
    law_conversion_keeps_order(f, a, b);
    let one = f.one();
    lemma_pow2_pos(f.scale());
    lemma_whole_is_positive(f, b);
    if a > 0 {
        lemma_whole_is_positive(f, a);
    } else {
        lemma_mul_basics(one as int);
    }
    let x = from_int(f, a as int);
    let y = from_int(f, b as int);
    assert(x is Finite && !x.neg() && x.mag() <= y.mag());
    let num = x.mag() * one;
    let den = y.mag();
    // At most one, which is its own rounding.
    assert(num * 1 <= one * den) by (nonlinear_arith)
        requires
            num == x.mag() * one,
            x.mag() <= den,
    ;
    lemma_rounded_order(num, den, one, 1, f.precision());
    lemma_one_is_exact(f);
}

/// One is a number of the format.
pub proof fn lemma_one_is_exact(f: Format)
    ensures
        rounded(f.one(), 1, f.precision()) == f.one(),
        f.one() < f.limit(),
        from_int(f, 1) == (Float::Finite { neg: false, mag: f.one() }),
{
    let p = f.precision();
    let k = (f.scale() + 1 - p) as nat;
    lemma_pow2_adds((p - 1) as nat, k);
    lemma_pow2_unfold(p);
    lemma_pow2_pos((p - 1) as nat);
    lemma_mul_basics(pow2(k) as int);
    lemma_mul_basics(f.one() as int);
    lemma_pow2_pos(f.scale());
    lemma_round_exact(f.one(), 1, p, pow2((p - 1) as nat), k);
    vstd::arithmetic::power2::lemma_pow2_strictly_increases(f.scale(), p + f.top());
}

/// A positive whole number converts to a positive number, at least one.
pub proof fn lemma_whole_is_positive(f: Format, n: nat)
    requires
        n > 0,
    ensures
        !from_int(f, n as int).neg(),
        !(from_int(f, n as int) is Nan),
        from_int(f, n as int) is Finite ==> from_int(f, n as int).mag() >= f.one(),
        f.one() > 0,
{
    let one = f.one();
    lemma_pow2_pos(f.scale());
    let x = n * one;
    assert(x >= one) by (nonlinear_arith)
        requires
            x == n * one,
            n >= 1,
            one > 0,
    ;
    lemma_rounded_order(one, 1, x, 1, f.precision());
    lemma_one_is_exact(f);
}

/// Every 64-bit whole number converts to a finite number.
pub proof fn lemma_u64_is_finite(f: Format, n: nat)
    requires
        n <= u64::MAX,
    ensures
        from_int(f, n as int) is Finite,
        !from_int(f, n as int).neg(),
        from_int(f, n as int).mag() <= pow2(64) * f.one(),
        n == 0 <==> from_int(f, n as int).mag() == 0,
{
    let one = f.one();
    let p = f.precision();
    lemma_pow2_pos(f.scale());
    lemma2_to64();
    let x = n * one;
    let top = pow2(64) * one;
    assert(x <= top && (x == 0 <==> n == 0)) by (nonlinear_arith)
        requires
            x == n * one,
            top == pow2(64) * one,
            n <= pow2(64),
            one > 0,
            n >= 0,
    ;
    // 2^64 is a number of the format.
    let k = (64 + f.scale() + 1 - p) as nat;
    lemma_pow2_adds(64, f.scale());
    lemma_pow2_adds((p - 1) as nat, k);
    lemma_pow2_unfold(p);
    lemma_pow2_pos((p - 1) as nat);
    lemma_mul_basics(pow2(k) as int);
    lemma_round_exact(top, 1, p, pow2((p - 1) as nat), k);
    lemma_rounded_order(x, 1, top, 1, p);
    vstd::arithmetic::power2::lemma_pow2_strictly_increases(64 + f.scale(), p + f.top());
    if n > 0 {
        lemma_whole_is_positive(f, n);
    }
}

/// A whole number as a number of the format, if it fits.
pub open spec fn whole(f: Format, n: int) -> Float {
    Float::Finite { neg: n < 0, mag: magnitude(n) * f.one() }
}

/// A whole number that fits the precision converts exactly.
pub proof fn law_small_whole_is_exact(f: Format, n: int)
    requires
        magnitude(n) <= pow2(f.precision()),
    ensures
        from_int(f, n) == whole(f, n),
        whole(f, n).units() == n * f.one(),
        f.one() > 0,
{
    let one = f.one();
    let m = magnitude(n);
    lemma_pow2_pos(f.scale());
    lemma_mul_basics(one as int);
    assert(m * one == magnitude(n * one) && (n < 0 <==> n * one < 0) && (n == 0 <==> n * one == 0))
        by (nonlinear_arith)
        requires
            m == magnitude(n),
            one > 0,
            magnitude(n * one) == if n * one < 0 {
                -(n * one)
            } else {
                n * one
            },
            magnitude(n) == if n < 0 {
                -n
            } else {
                n
            },
    ;
    if n != 0 {
        lemma_exact_product(f, m, f.scale());
    }
}

/// Small whole numbers are ordered as the numbers that they convert to.
pub proof fn law_small_wholes_keep_order(f: Format, a: int, b: int)
    requires
        magnitude(a) <= pow2(f.precision()),
        magnitude(b) <= pow2(f.precision()),
    ensures
        from_int(f, a).le(from_int(f, b)) <==> a <= b,
        from_int(f, a).lt(from_int(f, b)) <==> a < b,
{
    law_small_whole_is_exact(f, a);
    law_small_whole_is_exact(f, b);
    lemma_scale_lt(a, b, f.one() as int);
    lemma_scale_lt(b, a, f.one() as int);
}

/// Adding and subtracting small whole numbers is exact, but for the rounding of the result.
pub proof fn law_small_wholes_add(f: Format, a: int, b: int)
    requires
        magnitude(a) <= pow2(f.precision()),
        magnitude(b) <= pow2(f.precision()),
    ensures
        sum(f, from_int(f, a), from_int(f, b)) == from_int(f, a + b),
        difference(f, from_int(f, a), from_int(f, b)) == from_int(f, a - b),
{
    law_small_whole_is_exact(f, a);
    law_small_whole_is_exact(f, b);
    let one = f.one();
    assert(a * one + b * one == (a + b) * one && a * one - b * one == (a - b) * one)
        by (nonlinear_arith);
    assert((a + b) * one == 0 ==> a + b == 0) by (nonlinear_arith)
        requires
            one > 0,
    ;
    assert((a - b) * one == 0 ==> a - b == 0) by (nonlinear_arith)
        requires
            one > 0,
    ;
    assert(whole(f, b).negated().units() == -(b * one));
}

/// Scaling a fraction does not change its rounding.
pub proof fn lemma_rounded_scale(num: nat, den: nat, c: nat, p: nat)
    requires
        den > 0,
        c > 0,
    ensures
        rounded(num * c, den * c, p) == rounded(num, den, p),
{
    let q = num / den;
    let r = num % den;
    lemma_fundamental_div_mod(num as int, den as int);
    assert(num * c == q * (den * c) + r * c && r * c < den * c && r * c >= 0 && den * c > 0)
        by (nonlinear_arith)
        requires
            num == den * q + r,
            0 <= r < den,
            c > 0,
            den > 0,
    ;
    vstd::arithmetic::div_mod::lemma_fundamental_div_mod_converse(
        (num * c) as int,
        (den * c) as int,
        q as int,
        (r * c) as int,
    );
    let k = excess(q, p);
    let w = pow2(k);
    lemma_pow2_pos(k);
    assert((den * c) * w == (den * w) * c && den * w > 0) by (nonlinear_arith)
        requires
            den > 0,
            w > 0,
    ;
    lemma_nearest_even_scale(num, den * w, c);
}

/// Multiplying small whole numbers of one sign is exact, but for the rounding of the result.
pub proof fn law_small_wholes_multiply(f: Format, a: int, b: int)
    requires
        magnitude(a) <= pow2(f.precision()),
        magnitude(b) <= pow2(f.precision()),
        (a < 0) == (b < 0),
    ensures
        product(f, from_int(f, a), from_int(f, b)) == from_int(f, a * b),
{
    law_small_whole_is_exact(f, a);
    law_small_whole_is_exact(f, b);
    let one = f.one();
    let x = magnitude(a);
    let y = magnitude(b);
    let n = a * b;
    assert(n >= 0 && n == x * y) by (nonlinear_arith)
        requires
            n == a * b,
            (a < 0) == (b < 0),
            x == if a < 0 {
                -a
            } else {
                a
            },
            y == if b < 0 {
                -b
            } else {
                b
            },
    ;
    assert((x * one) * (y * one) == (n * one) * one && n * one >= 0) by (nonlinear_arith)
        requires
            n == x * y,
            n >= 0,
            one > 0,
    ;
    lemma_mul_basics(one as int);
    lemma_rounded_scale((n * one) as nat, 1, one, f.precision());
    if n * one == 0 {
        lemma_rounded_zero(f, false, 1);
    }
}

/// Dividing small whole numbers rounds their exact quotient once.
pub proof fn law_small_wholes_divide(f: Format, a: nat, b: nat)
    requires
        a <= pow2(f.precision()),
        0 < b <= pow2(f.precision()),
    ensures
        quotient(f, from_int(f, a as int), from_int(f, b as int)) == nearest(
            f,
            false,
            a * f.one(),
            b,
        ),
{
    law_small_whole_is_exact(f, a as int);
    law_small_whole_is_exact(f, b as int);
    let one = f.one();
    lemma_rounded_scale(a * one, b, one, f.precision());
    assert(b * one > 0) by (nonlinear_arith)
        requires
            b > 0,
            one > 0,
    ;
}

/// The rounding of a fraction whose whole part, in multiples of `2^k`, has exactly `p` bits.
pub proof fn lemma_rounded_at(n: nat, den: nat, p: nat, k: nat, q: nat, r: nat)
    requires
        p >= 1,
        n == q * den + r,
        r < den,
        pow2((p - 1) as nat) <= q < pow2(p),
    ensures
        rounded(n * pow2(k), den, p) == (if 2 * r < den || (2 * r == den && q % 2 == 0) {
            q
        } else {
            q + 1
        }) * pow2(k),
{
    let w = pow2(k);
    let num = n * w;
    lemma_pow2_pos(k);
    lemma_pow2_adds(p, k);
    lemma_pow2_adds((p - 1) as nat, k);
    let lo = pow2((p - 1) as nat);
    let hi = pow2(p);
    assert(num < (hi * w) * den && num >= (lo * w) * den && den * w > 0) by (nonlinear_arith)
        requires
            num == n * w,
            n == q * den + r,
            0 <= r < den,
            lo <= q,
            q + 1 <= hi,
            w > 0,
    ;
    lemma_quotient_bound(num, den, hi * w);
    lemma_quotient_bound(num, den, lo * w);
    crate::float::rounding::lemma_excess_at(num / den, p, k);
    assert(num == q * (den * w) + r * w && r * w < den * w) by (nonlinear_arith)
        requires
            num == n * w,
            n == q * den + r,
            r < den,
            w > 0,
    ;
    lemma_nearest_even_parts(num, den * w, q, r * w);
    lemma_scale_lt(2 * r as int, den as int, w as int);
    assert(2 * r * w == 2 * (r * w)) by (nonlinear_arith);
}

/// The root of a small square number is exact.
pub proof fn law_root_of_square(f: Format, n: nat)
    requires
        n * n <= pow2(f.precision()),
    ensures
        square_root(f, from_int(f, (n * n) as int)) == from_int(f, n as int),
{
    let one = f.one();
    let p = f.precision();
    assert(n <= n * n) by (nonlinear_arith)
        requires
            n >= 0,
    ;
    law_small_whole_is_exact(f, n as int);
    law_small_whole_is_exact(f, (n * n) as int);
    if n > 0 {
        let root = n * one;
        let mag = (n * n) * one;
        let x = mag * one;
        assert(root * root == x && root > 0 && mag > 0) by (nonlinear_arith)
            requires
                root == n * one,
                mag == (n * n) * one,
                x == mag * one,
                n > 0,
                one > 0,
        ;
        assert(is_root(root, x)) by (nonlinear_arith)
            requires
                root * root == x,
                is_root(root, x) == (root * root <= x < (root + 1) * (root + 1)),
        ;
        let r = choose|r: nat| is_root(r, x);
        lemma_root_is_unique(r, root, x);
        lemma_exact_product(f, n, f.scale());
        let k = excess(root, p);
        let w = pow2(k);
        lemma_pow2_pos(k);
        lemma_mul_basics(w as int);
        let q = root / w;
        lemma_fundamental_div_mod(root as int, w as int);
        assert(root / 1 == root);
        assert(nearest_even(root, w) * w == root);
        assert(q * w == root) by (nonlinear_arith)
            requires
                root == w * q + root % w,
                root % w < w,
                nearest_even(root, w) == q || nearest_even(root, w) == q + 1,
                nearest_even(root, w) * w == root,
                w > 0,
        ;
        let half = (2 * q + 1) * w;
        assert(4 * x < half * half) by (nonlinear_arith)
            requires
                x == root * root,
                root == q * w,
                half == (2 * q + 1) * w,
                w > 0,
                q >= 0,
        ;
    } else {
        lemma_mul_basics(one as int);
    }
}

/// A whole number has one whole root.
proof fn lemma_root_is_unique(a: nat, b: nat, x: nat)
    by (nonlinear_arith)
    requires
        is_root(a, x),
        is_root(b, x),
    ensures
        a == b,
{
}

/// A number with few enough significant bits, far enough above the smallest, is exact.
pub proof fn lemma_exact_product(f: Format, n: nat, a: nat)
    requires
        0 < n <= pow2(f.precision()),
        a <= f.scale() + 64,
    ensures
        rounded(n * pow2(a), 1, f.precision()) == n * pow2(a),
        n * pow2(a) < f.limit(),
{
    let p = f.precision();
    let x = n * pow2(a);
    lemma_pow2_pos(a);
    lemma_pow2_pos(p);
    lemma_pow2_adds(p, a);
    assert(x <= pow2(p + a)) by (nonlinear_arith)
        requires
            x == n * pow2(a),
            n <= pow2(p),
            pow2(p + a) == pow2(p) * pow2(a),
    ;
    vstd::arithmetic::power2::lemma_pow2_strictly_increases(p + a, p + f.top());
    assert(x / 1 == x);
    lemma_excess_range(x, p);
    let k = excess(x, p);
    lemma_mul_basics(pow2(k) as int);
    lemma_pow2_pos(k);
    // The spacing is not coarser than `2^a` or the number is `2^(p + a)`.
    if k > a {
        if k > a + 1 {
            lemma_pow2_le(p + a + 1, (p - 1 + k) as nat);
            vstd::arithmetic::power2::lemma_pow2_strictly_increases(p + a, p + a + 1);
            assert(false);
        }
        assert(p - 1 + k == p + a);
        assert(x == pow2(p + a));
        lemma_pow2_adds((p - 1) as nat, k);
        lemma_nearest_even_parts(x, pow2(k), pow2((p - 1) as nat), 0);
    } else {
        let d = (a - k) as nat;
        lemma_pow2_adds(k, d);
        let q = n * pow2(d);
        assert(x == q * pow2(k)) by (nonlinear_arith)
            requires
                x == n * pow2(a),
                pow2(a) == pow2(k) * pow2(d),
                q == n * pow2(d),
        ;
        lemma_nearest_even_parts(x, pow2(k), q, 0);
    }
}

/// The whole number nearest to a fraction is at most one half away.
proof fn lemma_nearest_even_error(num: nat, den: nat)
    requires
        den > 0,
    ensures
        2 * magnitude(nearest_even(num, den) * den - num) <= den,
{
    let q = num / den;
    lemma_fundamental_div_mod(num as int, den as int);
    let r = num % den;
    assert((q + 1) * den == q * den + den) by (nonlinear_arith);
    assert(den * q == q * den) by (nonlinear_arith);
}

/// Rounding changes a fraction by at most one part in `2^p`, or by half a unit where it is small.
pub proof fn law_rounding_error(num: nat, den: nat, p: nat)
    requires
        den > 0,
        p >= 1,
    ensures
        ({
            let error = magnitude(rounded(num, den, p) * den - num);
            pow2(p) * error <= num || 2 * error <= den
        }),
        rounded(num, den, p) * den * 2 <= 3 * num + den,
{
    let q = num / den;
    let k = excess(q, p);
    let w = pow2(k);
    let t = den * w;
    lemma_pow2_pos(k);
    lemma_pow2_pos(p);
    lemma_excess_range(q, p);
    assert(t > 0) by (nonlinear_arith)
        requires
            t == den * w,
            den > 0,
            w > 0,
    ;
    lemma_nearest_even_error(num, t);
    let a = nearest_even(num, t);
    assert((a * w) * den == a * t) by (nonlinear_arith)
        requires
            t == den * w,
    ;
    let error = magnitude(a * t - num);
    if k == 0 {
        lemma2_to64();
        lemma_mul_basics(den as int);
    } else {
        lemma_pow2_adds((p - 1) as nat, k);
        lemma_pow2_unfold(p);
        let half = pow2((p - 1) as nat);
        lemma_quotient_bound(num, den, half * w);
        assert(num >= half * t) by (nonlinear_arith)
            requires
                num >= (half * w) * den,
                t == den * w,
        ;
        assert((2 * half) * error <= num) by (nonlinear_arith)
            requires
                2 * error <= t,
                num >= half * t,
                half > 0,
        ;
        assert(2 * error <= num) by (nonlinear_arith)
            requires
                (2 * half) * error <= num,
                half >= 1,
                error >= 0,
        ;
    }
}

/// The root of a number lies on the same side of a small whole number as the number of its square.
pub proof fn law_root_keeps_order(f: Format, mag: nat, n: nat)
    requires
        n * n <= pow2(f.precision()),
    ensures
        mag >= (n * n) * f.one() ==> from_int(f, n as int).le(
            square_root(f, Float::Finite { neg: false, mag }),
        ),
        mag <= (n * n) * f.one() ==> square_root(f, Float::Finite { neg: false, mag }).le(
            from_int(f, n as int),
        ),
{
    let one = f.one();
    let p = f.precision();
    assert(n <= n * n) by (nonlinear_arith)
        requires
            n >= 0,
    ;
    law_small_whole_is_exact(f, n as int);
    let x = mag * one;
    let root = n * one;
    let top = ((n * n) * one) * one;
    assert(root * root == top) by (nonlinear_arith)
        requires
            root == n * one,
            top == ((n * n) * one) * one,
    ;
    lemma_scale_lt(mag as int, ((n * n) * one) as int, one as int);
    lemma_scale_lt(((n * n) * one) as int, mag as int, one as int);
    if mag > 0 {
        crate::float::root::lemma_root_exists(x);
        let r = choose|r: nat| is_root(r, x);
        let k = excess(r, p);
        let w = pow2(k);
        lemma_pow2_pos(k);
        let c = r / w;
        lemma_fundamental_div_mod(r as int, w as int);
        assert(c * w <= r && r < (c + 1) * w) by (nonlinear_arith)
            requires
                r == w * c + r % w,
                0 <= r % w < w,
        ;
        let result = nearest_root(x, r, k) * w;
        assert(result == c * w || result == (c + 1) * w);
        if n == 0 {
            lemma_mul_basics(one as int);
        } else {
            lemma_exact_product(f, n, f.scale());
            let e = excess(root, p);
            let v = pow2(e);
            lemma_pow2_pos(e);
            lemma_whole_multiple(root, p);
            lemma_excess_range(root, p);
            lemma_excess_range(r, p);
            let q = root / v;
            if x >= top {
                assert(r >= root) by (nonlinear_arith)
                    requires
                        root * root <= x,
                        x < (r + 1) * (r + 1),
                        r >= 0,
                ;
                lemma_root_floor(root, r, p);
                assert(result >= c * w) by (nonlinear_arith)
                    requires
                        result == c * w || result == (c + 1) * w,
                        w > 0,
                ;
            }
            if x <= top {
                assert(r <= root) by (nonlinear_arith)
                    requires
                        r * r <= x,
                        x <= root * root,
                        root >= 0,
                ;
                if r == root {
                    assert(x == top);
                    law_root_of_square(f, n);
                    assert(mag == (n * n) * one);
                    law_small_whole_is_exact(f, (n * n) as int);
                } else {
                    lemma_root_ceiling(root, r, p);
                    assert(result <= (c + 1) * w) by (nonlinear_arith)
                        requires
                            result == c * w || result == (c + 1) * w,
                            w > 0,
                    ;
                }
            }
        }
    } else {
        lemma_mul_basics(one as int);
        assert(n > 0 ==> (n * n) * one > 0) by (nonlinear_arith)
            requires
                one > 0,
                n >= 0,
        ;
    }
}

/// A number that is its own rounding is a multiple of its spacing.
pub proof fn lemma_whole_multiple(m: nat, p: nat)
    requires
        rounded(m, 1, p) == m,
    ensures
        (m / pow2(excess(m, p))) * pow2(excess(m, p)) == m,
{
    let w = pow2(excess(m, p));
    lemma_pow2_pos(excess(m, p));
    lemma_mul_basics(w as int);
    assert(m / 1 == m);
    let q = m / w;
    lemma_fundamental_div_mod(m as int, w as int);
    assert(nearest_even(m, w) * w == m);
    assert(q * w == m) by (nonlinear_arith)
        requires
            m == w * q + m % w,
            m % w < w,
            nearest_even(m, w) == q || nearest_even(m, w) == q + 1,
            nearest_even(m, w) * w == m,
            w > 0,
    ;
}

/// Cutting a number to its significant bits does not take it below a smaller number of the format.
proof fn lemma_root_floor(root: nat, r: nat, p: nat)
    requires
        rounded(root, 1, p) == root,
        root <= r,
        p >= 1,
    ensures
        root <= (r / pow2(excess(r, p))) * pow2(excess(r, p)),
{
    let e = excess(root, p);
    let k = excess(r, p);
    let w = pow2(k);
    lemma_pow2_pos(k);
    lemma_pow2_pos(e);
    lemma_whole_multiple(root, p);
    lemma_excess_range(root, p);
    lemma_excess_range(r, p);
    let c = r / w;
    if e > k {
        lemma_pow2_le(p + k, (p - 1 + e) as nat);
    } else if e == k {
        vstd::arithmetic::div_mod::lemma_div_is_ordered(root as int, r as int, w as int);
        assert((root / w) * w <= c * w) by (nonlinear_arith)
            requires
                root / w <= c,
        ;
    } else {
        lemma_pow2_adds((p - 1) as nat, k);
        lemma_quotient_bound(r, w, pow2((p - 1) as nat));
        assert(c * w >= pow2((p - 1 + k) as nat)) by (nonlinear_arith)
            requires
                c >= pow2((p - 1) as nat),
                pow2((p - 1 + k) as nat) == pow2((p - 1) as nat) * w,
        ;
        lemma_pow2_le(p + e, (p - 1 + k) as nat);
    }
}

/// Taking a number up to the next multiple of its spacing does not take it above a larger number
/// of the format.
proof fn lemma_root_ceiling(root: nat, r: nat, p: nat)
    requires
        rounded(root, 1, p) == root,
        r < root,
        p >= 1,
    ensures
        (r / pow2(excess(r, p)) + 1) * pow2(excess(r, p)) <= root,
{
    let e = excess(root, p);
    let k = excess(r, p);
    let w = pow2(k);
    lemma_pow2_pos(k);
    lemma_pow2_pos(e);
    lemma_whole_multiple(root, p);
    lemma_excess_range(root, p);
    lemma_excess_range(r, p);
    if k > e {
        lemma_pow2_le(p + e, (p - 1 + k) as nat);
    }
    let d = (e - k) as nat;
    lemma_pow2_adds(k, d);
    let q = (root / pow2(e)) * pow2(d);
    assert(q * w == root) by (nonlinear_arith)
        requires
            q == (root / pow2(e)) * pow2(d),
            (root / pow2(e)) * pow2(e) == root,
            pow2(e) == w * pow2(d),
    ;
    lemma_quotient_bound(r, w, q);
    let c = r / w;
    assert((c + 1) * w <= root) by (nonlinear_arith)
        requires
            c + 1 <= q,
            q * w == root,
            w > 0,
    ;
}

} // verus!
