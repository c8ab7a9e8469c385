//! Facts about powers of two and about rounding to a number of significant bits.

use crate::float::model::{excess, infinite_bits, nearest_even, number, settled, Format};
use vstd::arithmetic::div_mod::{lemma_fundamental_div_mod, lemma_fundamental_div_mod_converse};
use vstd::arithmetic::power2::{
    lemma_pow2_adds, lemma_pow2_pos, lemma_pow2_strictly_increases, lemma_pow2_unfold, pow2,
};
use vstd::prelude::*;

verus! {

/// Larger exponents give larger powers of two.
pub proof fn lemma_pow2_le(a: nat, b: nat)
    requires
        a <= b,
    ensures
        pow2(a) <= pow2(b),
        pow2(a) > 0,
{
    lemma_pow2_pos(a);
    if a < b {
        lemma_pow2_strictly_increases(a, b);
    }
}

/// Multiplying both sides of a comparison with a positive number keeps it.
pub proof fn lemma_scale_lt(a: int, b: int, c: int)
    by (nonlinear_arith)
    requires
        c > 0,
    ensures
        a < b <==> a * c < b * c,
        a <= b <==> a * c <= b * c,
        a == b <==> a * c == b * c,
{
}

/// A quotient is below a bound exactly when the dividend is below the bound times the divisor.
pub proof fn lemma_quotient_bound(num: nat, den: nat, bound: nat)
    requires
        den > 0,
    ensures
        num / den < bound <==> num < bound * den,
{
    let q = (num / den) as int;
    let d = den as int;
    lemma_fundamental_div_mod(num as int, d);
    let r = num as int % d;
    assert(num as int == d * q + r && 0 <= r < d);
    let b = bound as int;
    assert(q < b ==> d * q + r < b * d) by (nonlinear_arith)
        requires
            0 <= r < d,
    ;
    assert(q >= b ==> d * q + r >= b * d) by (nonlinear_arith)
        requires
            0 <= r < d,
    ;
}

/// What `excess` is, by the binade that a whole number lies in.
pub proof fn lemma_excess_at(q: nat, p: nat, k: nat)
    requires
        p >= 1,
        k == 0 ==> q < pow2(p),
        k > 0 ==> pow2((p - 1 + k) as nat) <= q < pow2(p + k),
    ensures
        excess(q, p) == k,
    decreases k,
{
    lemma_pow2_pos(p);
    if k > 0 {
        lemma_pow2_le(p, (p - 1 + k) as nat);
        lemma_pow2_unfold((p - 1 + k) as nat);
        lemma_pow2_unfold(p + k);
        lemma_excess_at(q / 2, p, (k - 1) as nat);
    }
}

/// The binade that a whole number lies in, by `excess`.
pub proof fn lemma_excess_range(q: nat, p: nat)
    requires
        p >= 1,
    ensures
        excess(q, p) == 0 ==> q < pow2(p),
        excess(q, p) > 0 ==> pow2((p - 1 + excess(q, p)) as nat) <= q,
        q < pow2(p + excess(q, p)),
    decreases q,
{
    lemma_pow2_pos(p);
    if q >= pow2(p) {
        lemma_excess_range(q / 2, p);
        let k = excess(q, p);
        lemma_pow2_unfold(p + k);
        lemma_pow2_unfold((p - 1 + k) as nat);
        if k == 1 {
        } else {
            assert(excess(q / 2, p) == k - 1);
        }
    }
}

/// The nearest whole number from a quotient and a remainder.
pub proof fn lemma_nearest_even_parts(num: nat, den: nat, q: nat, r: nat)
    requires
        den > 0,
        num == q * den + r,
        r < den,
    ensures
        nearest_even(num, den) == (if 2 * r < den || (2 * r == den && q % 2 == 0) {
            q
        } else {
            q + 1
        }),
{
    lemma_fundamental_div_mod_converse(num as int, den as int, q as int, r as int);
}

/// Scaling a fraction does not change the whole number nearest to it.
pub proof fn lemma_nearest_even_scale(num: nat, den: nat, c: nat)
    requires
        den > 0,
        c > 0,
    ensures
        nearest_even(num * c, den * c) == nearest_even(num, den),
{
    let q = num / den;
    let r = num % den;
    lemma_fundamental_div_mod(num as int, den as int);
    assert(num * c == q * (den * c) + r * c) by (nonlinear_arith)
        requires
            num == den * q + r,
    ;
    lemma_scale_lt(r as int, den as int, c as int);
    lemma_scale_lt(2 * r as int, den as int, c as int);
    assert(2 * r * c == 2 * (r * c)) by (nonlinear_arith);
    assert(den * c > 0) by (nonlinear_arith)
        requires
            den > 0,
            c > 0,
    ;
    lemma_nearest_even_parts(num * c, den * c, q, r * c);
}

/// Two to the power of `e` where `e` is not negative, else one.
pub open spec fn up(e: int) -> nat {
    if e >= 0 {
        pow2(e as nat)
    } else {
        1
    }
}

/// Two to the power of `-e` where `e` is negative, else one.
pub open spec fn down(e: int) -> nat {
    if e < 0 {
        pow2((-e) as nat)
    } else {
        1
    }
}

/// `num / den` is at least `m * 2^e` and less than `(m + 1) * 2^e`; `exact` tells whether it is
/// the former.
pub open spec fn bracketed(num: nat, den: nat, m: nat, e: int, exact: bool) -> bool {
    &&& den > 0
    &&& m * (up(e) * den) <= num * down(e)
    &&& num * down(e) < (m + 1) * (up(e) * den)
    &&& exact <==> num * down(e) == m * (up(e) * den)
}

/// Splitting a power of two over a signed exponent.
pub proof fn lemma_up_down(e: int, s: nat)
    requires
        e + s >= 0,
    ensures
        pow2((e + s) as nat) * down(e) == pow2(s) * up(e),
        up(e) > 0,
        down(e) > 0,
{
    if e >= 0 {
        lemma_pow2_adds(e as nat, s);
        lemma_pow2_pos(e as nat);
        assert(e as nat + s == (e + s) as nat);
        vstd::arithmetic::mul::lemma_mul_basics(pow2((e + s) as nat) as int);
        assert(pow2(e as nat) * pow2(s) == pow2(s) * pow2(e as nat)) by (nonlinear_arith);
    } else {
        lemma_pow2_adds((e + s) as nat, (-e) as nat);
        assert((e + s) as nat + (-e) as nat == s);
        vstd::arithmetic::mul::lemma_mul_basics(pow2(s) as int);
        lemma_pow2_pos((-e) as nat);
    }
}

/// The binade of a bracketed fraction.
proof fn lemma_bracketed_excess(
    num: nat,
    den: nat,
    p: nat,
    m: nat,
    e: int,
    exact: bool,
    s: nat,
)
    requires
        bracketed(num, den, m, e, exact),
        p >= 1,
        e + s >= 0,
        m < pow2(p + s),
        e + s > 0 ==> pow2((p - 1 + s) as nat) <= m,
    ensures
        excess(num / den, p) == e + s,
{
    let k = (e + s) as nat;
    let w = up(e) * den;
    let dn = down(e);
    lemma_up_down(e, s);
    assert(w > 0) by (nonlinear_arith)
        requires
            up(e) > 0,
            den > 0,
            w == up(e) * den,
    ;
    let hi = pow2(p + k);
    assert(hi * dn == pow2(p + s) * up(e)) by {
        lemma_up_down(e, p + s);
        assert(p + k == e + (p + s));
    }
    assert(num * dn < (hi * den) * dn) by {
        assert((m + 1) * w <= pow2(p + s) * w) by (nonlinear_arith)
            requires
                m + 1 <= pow2(p + s),
        ;
        assert(pow2(p + s) * w == (hi * den) * dn) by (nonlinear_arith)
            requires
                hi * dn == pow2(p + s) * up(e),
                w == up(e) * den,
        ;
    }
    lemma_scale_lt(num as int, (hi * den) as int, dn as int);
    lemma_quotient_bound(num, den, hi);
    if k > 0 {
        let lo = pow2((p - 1 + k) as nat);
        let t = pow2((p - 1 + s) as nat);
        assert(lo * dn == t * up(e)) by {
            lemma_up_down(e, (p - 1 + s) as nat);
            assert(p - 1 + k == e + (p - 1 + s));
        }
        assert(num * dn >= (lo * den) * dn) by {
            assert(m * w >= t * w) by (nonlinear_arith)
                requires
                    m >= t,
            ;
            assert(t * w == (lo * den) * dn) by (nonlinear_arith)
                requires
                    lo * dn == t * up(e),
                    w == up(e) * den,
            ;
        }
        lemma_scale_lt(num as int, (lo * den) as int, dn as int);
        lemma_quotient_bound(num, den, lo);
    }
    lemma_excess_at(num / den, p, k);
}

/// Rounding a bracketed fraction by discarding the `s` low bits of `m`: the discarded bits, and
/// whether there is anything below them, decide.
pub proof fn lemma_round_discard(
    num: nat,
    den: nat,
    p: nat,
    m: nat,
    e: int,
    exact: bool,
    s: nat,
    q: nat,
    r: nat,
)
    requires
        bracketed(num, den, m, e, exact),
        p >= 1,
        s >= 1,
        e + s >= 0,
        m == q * pow2(s) + r,
        r < pow2(s),
        m < pow2(p + s),
        e + s > 0 ==> pow2((p - 1 + s) as nat) <= m,
    ensures
        excess(num / den, p) == e + s,
        nearest_even(num, den * pow2((e + s) as nat)) == (if 2 * r < pow2(s) || (2 * r == pow2(s)
            && exact && q % 2 == 0) {
            q
        } else {
            q + 1
        }),
{
    lemma_bracketed_excess(num, den, p, m, e, exact, s);
    let k = (e + s) as nat;
    let w = up(e) * den;
    let dn = down(e);
    let ss = pow2(s);
    lemma_up_down(e, s);
    lemma_pow2_unfold(s);
    lemma_pow2_pos(k);
    let half = pow2((s - 1) as nat);
    assert(ss == 2 * half);
    let t = den * pow2(k);
    assert(w > 0) by (nonlinear_arith)
        requires
            up(e) > 0,
            den > 0,
            w == up(e) * den,
    ;
    assert(t > 0) by (nonlinear_arith)
        requires
            den > 0,
            pow2(k) > 0,
            t == den * pow2(k),
    ;
    assert(t * dn == ss * w) by (nonlinear_arith)
        requires
            pow2(k) * dn == ss * up(e),
            w == up(e) * den,
            t == den * pow2(k),
    ;
    // What is left over, scaled by `dn`, is `r * w` and a bit less than one more `w`.
    let left = num - q * t;
    let phi = num * dn - m * w;
    assert(0 <= phi < w) by (nonlinear_arith)
        requires
            m * w <= num * dn,
            num * dn < (m + 1) * w,
            phi == num * dn - m * w,
    ;
    assert(left * dn == r * w + phi) by (nonlinear_arith)
        requires
            left == num - q * t,
            t * dn == ss * w,
            phi == num * dn - m * w,
            m == q * ss + r,
    ;
    assert(0 * dn <= left * dn) by (nonlinear_arith)
        requires
            left * dn == r * w + phi,
            0 <= phi,
    ;
    lemma_scale_lt(0, left, dn as int);
    assert(left * dn < t * dn) by (nonlinear_arith)
        requires
            left * dn == r * w + phi,
            phi < w,
            r + 1 <= ss,
            t * dn == ss * w,
            w > 0,
    ;
    lemma_scale_lt(left, t as int, dn as int);
    assert(num == q * t + left as nat);
    lemma_nearest_even_parts(num, t, q, left as nat);
    let twice = 2 * left;
    assert(twice * dn == 2 * (r * w + phi)) by (nonlinear_arith)
        requires
            twice == 2 * left,
            left * dn == r * w + phi,
    ;
    lemma_scale_lt(twice, t as int, dn as int);
    if r < half {
        assert(2 * (r * w + phi) < ss * w) by (nonlinear_arith)
            requires
                phi < w,
                r + 1 <= half,
                ss == 2 * half,
                w > 0,
        ;
    } else if r > half {
        assert(2 * (r * w + phi) > ss * w) by (nonlinear_arith)
            requires
                0 <= phi,
                r >= half + 1,
                ss == 2 * half,
                w > 0,
        ;
    } else {
        assert(2 * (r * w + phi) == ss * w + 2 * phi) by (nonlinear_arith)
            requires
                r == half,
                ss == 2 * half,
        ;
    }
}

/// A fraction that `p` significant bits can express is its own rounding.
pub proof fn lemma_round_exact(num: nat, den: nat, p: nat, q: nat, k: nat)
    requires
        den > 0,
        p >= 1,
        num == q * (den * pow2(k)),
        q < pow2(p),
        k > 0 ==> pow2((p - 1) as nat) <= q,
    ensures
        excess(num / den, p) == k,
        nearest_even(num, den * pow2(k)) == q,
{
    lemma_pow2_pos(k);
    let t = den * pow2(k);
    assert(t > 0) by (nonlinear_arith)
        requires
            den > 0,
            pow2(k) > 0,
            t == den * pow2(k),
    ;
    lemma_nearest_even_parts(num, t, q, 0);
    let v = q * pow2(k);
    assert(num == v * den + 0) by (nonlinear_arith)
        requires
            num == q * (den * pow2(k)),
            v == q * pow2(k),
    ;
    lemma_fundamental_div_mod_converse(num as int, den as int, v as int, 0);
    lemma_pow2_adds(p, k);
    assert(v < pow2(p + k)) by (nonlinear_arith)
        requires
            v == q * pow2(k),
            q < pow2(p),
            pow2(p + k) == pow2(p) * pow2(k),
            pow2(k) > 0,
    ;
    if k > 0 {
        lemma_pow2_adds((p - 1) as nat, k);
        assert(v >= pow2((p - 1 + k) as nat)) by (nonlinear_arith)
            requires
                v == q * pow2(k),
                q >= pow2((p - 1) as nat),
                pow2((p - 1 + k) as nat) == pow2((p - 1) as nat) * pow2(k),
        ;
    } else {
        assert(pow2(0) == 1) by {
            lemma_pow2_unfold(1);
            vstd::arithmetic::power2::lemma2_to64();
        }
    }
    lemma_excess_at(v, p, k);
}

/// What the bits below the sign stand for, when they are made of a significand and an exponent.
/// A significand that rounding carried into one more bit is covered.
pub proof fn lemma_encoded(f: Format, r: nat, k: nat, neg: bool)
    requires
        r <= pow2(f.precision()),
        k > 0 ==> pow2((f.precision() - 1) as nat) <= r,
        k <= f.top(),
    ensures
        ({
            let bits = k * pow2((f.precision() - 1) as nat) + r;
            let inf = infinite_bits(f);
            &&& bits <= inf
            &&& number(f, neg, bits) == settled(f, neg, r * pow2(k))
        }),
{
    let p = f.precision();
    let lead = pow2((p - 1) as nat);
    lemma_pow2_unfold(p);
    lemma_pow2_pos((p - 1) as nat);
    let bits = k * lead + r;
    let inf = infinite_bits(f);
    let top = f.top();
    assert(bits <= inf && (bits == inf <==> k == top && r == 2 * lead)) by (nonlinear_arith)
        requires
            bits == k * lead + r,
            inf == (top + 2) * lead,
            k <= top,
            r <= 2 * lead,
            lead > 0,
    ;
    lemma_pow2_adds(p, top);
    lemma_pow2_le(k, top);
    assert(r * pow2(k) <= pow2(p) * pow2(top)) by (nonlinear_arith)
        requires
            r <= pow2(p),
            pow2(k) <= pow2(top),
    ;
    if bits < inf {
        // Finite: below the limit, and decoded again.
        if k < top {
            lemma_pow2_unfold((k + 1) as nat);
            lemma_pow2_le((k + 1) as nat, top);
            lemma_pow2_pos(k);
            assert(r * pow2(k) < pow2(p) * pow2(top)) by (nonlinear_arith)
                requires
                    r <= pow2(p),
                    2 * pow2(k) <= pow2(top),
                    pow2(p) > 0,
                    pow2(k) > 0,
            ;
        } else {
            assert(r < 2 * lead);
            assert(r * pow2(k) < pow2(p) * pow2(top)) by (nonlinear_arith)
                requires
                    r < pow2(p),
                    pow2(k) == pow2(top),
                    pow2(k) > 0,
            ;
        }
        if bits < 2 * lead {
            assert(k == 0) by (nonlinear_arith)
                requires
                    bits < 2 * lead,
                    bits == k * lead + r,
                    k > 0 ==> lead <= r,
                    lead > 0,
            ;
            vstd::arithmetic::power2::lemma2_to64();
            assert(bits == r) by (nonlinear_arith)
                requires
                    k == 0,
                    bits == k * lead + r,
            ;
        } else if r == 2 * lead {
            assert(bits as int == (k + 2) * lead + 0) by (nonlinear_arith)
                requires
                    bits == k * lead + r,
                    r == 2 * lead,
            ;
            lemma_fundamental_div_mod_converse(bits as int, lead as int, (k + 2) as int, 0);
            lemma_pow2_unfold((k + 1) as nat);
            assert(lead * (2 * pow2(k)) == r * pow2(k)) by (nonlinear_arith)
                requires
                    r == 2 * lead,
            ;
        } else {
            assert(lead <= r) by {
                if k == 0 {
                    assert(bits == r) by (nonlinear_arith)
                        requires
                            k == 0,
                            bits == k * lead + r,
                    ;
                }
            }
            assert(bits as int == (k + 1) * lead + (r - lead)) by (nonlinear_arith)
                requires
                    bits == k * lead + r,
            ;
            lemma_fundamental_div_mod_converse(
                bits as int,
                lead as int,
                (k + 1) as int,
                r - lead,
            );
        }
    } else {
        assert(r * pow2(k) == pow2(p) * pow2(top));
    }
}

/// A significand with a spacing beyond the coarsest one is too large to be finite.
pub proof fn lemma_beyond_top(f: Format, r: nat, k: nat)
    requires
        k > f.top(),
        pow2((f.precision() - 1) as nat) <= r,
    ensures
        r * pow2(k) >= f.limit(),
{
    let p = f.precision();
    lemma_pow2_adds((p - 1) as nat, (f.top() + 1) as nat);
    lemma_pow2_le((f.top() + 1) as nat, k);
    assert((p - 1) as nat + (f.top() + 1) as nat == p + f.top());
    assert(r * pow2(k) >= pow2((p - 1) as nat) * pow2((f.top() + 1) as nat)) by (nonlinear_arith)
        requires
            r >= pow2((p - 1) as nat),
            pow2(k) >= pow2((f.top() + 1) as nat),
    ;
}

} // verus!
