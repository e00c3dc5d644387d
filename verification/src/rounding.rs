//! Rounding of exact numbers to the precision of an IEEE 754 double.
//!
//! A double keeps 53 significant bits. Numbers are given here as quotients of
//! natural numbers, and the results are read as whole numbers of bytes or points,
//! so the exponent range of a double never comes into play: what overflows it is
//! far above 2^64, and what underflows it is far below one.
use vstd::arithmetic::power2::{
    lemma2_to64, lemma2_to64_rest, lemma_pow2_adds, lemma_pow2_pos, lemma_pow2_strictly_increases,
    lemma_pow2_unfold, pow2,
};
use vstd::prelude::*;

verus! {

/// `e` where it is positive, else zero.
pub open spec fn positive(e: int) -> nat {
    if e > 0 {
        e as nat
    } else {
        0
    }
}

/// The numerator of `(a / b) / 2^e` over the denominator `grown(b, e)`.
pub open spec fn shifted(a: nat, e: int) -> nat {
    a * pow2(positive(-e))
}

/// The denominator of `(a / b) / 2^e`.
pub open spec fn grown(b: nat, e: int) -> nat {
    b * pow2(positive(e))
}

/// Whether `a / b` lies in `[2^52, 2^53) * 2^e`, where doubles are the multiples
/// of `2^e`.
pub open spec fn in_binade(a: nat, b: nat, e: int) -> bool {
    grown(b, e) * pow2(52) <= shifted(a, e) < grown(b, e) * pow2(53)
}

/// The exponent of the binade of `a / b`.
pub open spec fn exponent(a: nat, b: nat) -> int {
    choose|e: int| in_binade(a, b, e)
}

/// The whole number nearest to `p / q`; of two that are equally near, the even one.
pub open spec fn half_even(p: nat, q: nat) -> nat {
    let f = p / q;
    let r = p % q;
    if 2 * r > q || (2 * r == q && f % 2 == 1) {
        f + 1
    } else {
        f
    }
}

/// The double nearest to `a / b`, as a quotient; of two that are equally near, the
/// one with an even significand.
pub open spec fn nearest(a: nat, b: nat) -> (nat, nat) {
    if a == 0 {
        (0, 1)
    } else {
        let e = exponent(a, b);
        let m = half_even(shifted(a, e), grown(b, e));
        (m * pow2(positive(e)), pow2(positive(-e)))
    }
}

/// The double nearest to `a / b`, times `factor`, without its fraction.
pub open spec fn nearest_times(a: nat, b: nat, factor: nat) -> nat {
    let (p, q) = nearest(a, b);
    p * factor / q
}

/// The double nearest to the whole number `n`, which is whole too.
pub open spec fn nearest_whole(n: nat) -> nat {
    nearest_times(n, 1, 1)
}

proof fn lemma_mul_le(a: nat, b: nat, c: nat)
    by (nonlinear_arith)
    requires
        c > 0,
    ensures
        a <= b <==> a * c <= b * c,
        a < b <==> a * c < b * c,
        a == b <==> a * c == b * c,
{
}

/// The binade of `a / b`, with both sides multiplied by `2^k`.
proof fn lemma_binade_scaled(a: nat, b: nat, e: int, k: nat)
    requires
        k >= positive(-e),
        k + e >= 0,
    ensures
        in_binade(a, b, e) <==> (b * pow2((52 + e + k) as nat) <= a * pow2(k) && a * pow2(k) < b
            * pow2((53 + e + k) as nat)),
{
    let d = (k - positive(-e)) as nat;
    let c = pow2(d);
    lemma_pow2_pos(d);
    lemma_pow2_adds(positive(-e), d);
    lemma_pow2_adds(positive(e), 52);
    lemma_pow2_adds(positive(e), 53);
    lemma_pow2_adds(positive(e) + 52, d);
    lemma_pow2_adds(positive(e) + 53, d);
    let lo = grown(b, e) * pow2(52);
    let hi = grown(b, e) * pow2(53);
    let mid = shifted(a, e);
    assert(mid * c == a * pow2(k)) by (nonlinear_arith)
        requires
            mid == a * pow2(positive(-e)),
            pow2(positive(-e)) * c == pow2(k),
    ;
    assert(lo * c == b * pow2((52 + e + k) as nat)) by (nonlinear_arith)
        requires
            lo == b * pow2(positive(e)) * pow2(52),
            pow2(positive(e)) * pow2(52) == pow2(positive(e) + 52),
            pow2(positive(e) + 52) * c == pow2((52 + e + k) as nat),
    ;
    assert(hi * c == b * pow2((53 + e + k) as nat)) by (nonlinear_arith)
        requires
            hi == b * pow2(positive(e)) * pow2(53),
            pow2(positive(e)) * pow2(53) == pow2(positive(e) + 53),
            pow2(positive(e) + 53) * c == pow2((53 + e + k) as nat),
    ;
    lemma_mul_le(lo, mid, c);
    lemma_mul_le(mid, hi, c);
}

proof fn lemma_pow2_monotone(i: nat, j: nat)
    requires
        i <= j,
    ensures
        pow2(i) <= pow2(j),
{
    if i < j {
        lemma_pow2_strictly_increases(i, j);
    }
}

/// A number lies in one binade only.
proof fn lemma_binade_unique(a: nat, b: nat, e1: int, e2: int)
    requires
        in_binade(a, b, e1),
        in_binade(a, b, e2),
    ensures
        e1 == e2,
{
    lemma_binade_order(a, b, e1, e2);
    lemma_binade_order(a, b, e2, e1);
}

proof fn lemma_binade_order(a: nat, b: nat, e1: int, e2: int)
    requires
        in_binade(a, b, e1),
        in_binade(a, b, e2),
    ensures
        e1 >= e2,
{
    if e1 < e2 {
        let k = positive(-e1) + positive(-e2);
        lemma_binade_scaled(a, b, e1, k);
        lemma_binade_scaled(a, b, e2, k);
        lemma_pow2_monotone((53 + e1 + k) as nat, (52 + e2 + k) as nat);
        let x = pow2((53 + e1 + k) as nat);
        let y = pow2((52 + e2 + k) as nat);
        assert(b * x <= b * y) by (nonlinear_arith)
            requires
                x <= y,
        ;
    }
}

/// Every positive number lies in some binade.
proof fn lemma_binade_exists(a: nat, b: nat)
    requires
        a > 0,
        b > 0,
    ensures
        in_binade(a, b, exponent(a, b)),
{
    lemma_pow2_pos(52);
    lemma_pow2_pos(53);
    lemma_pow2_unfold(53);
    assert(b * pow2(53) >= b * pow2(52)) by (nonlinear_arith)
        requires
            pow2(53) == 2 * pow2(52),
            pow2(52) > 0,
    ;
    let e = if a >= b * pow2(53) {
        lemma_binade_above(a, b)
    } else {
        lemma_binade_below(a, b)
    };
    assert(in_binade(a, b, e));
}

proof fn lemma_binade_at_zero(a: nat, b: nat)
    requires
        b * pow2(52) <= a < b * pow2(53),
    ensures
        in_binade(a, b, 0),
{
    lemma2_to64();
    assert(a * pow2(0) == a && b * pow2(0) == b) by (nonlinear_arith)
        requires
            pow2(0) == 1,
    ;
}

proof fn lemma_binade_above(a: nat, b: nat) -> (e: int)
    requires
        b > 0,
        a >= b * pow2(52),
    ensures
        in_binade(a, b, e),
        e >= 0,
    decreases a - b,
{
    lemma_pow2_pos(52);
    lemma_pow2_unfold(53);
    if a < b * pow2(53) {
        lemma_binade_at_zero(a, b);
        0
    } else {
        assert(a >= 2 * b * pow2(52)) by (nonlinear_arith)
            requires
                a >= b * pow2(53),
                pow2(53) == 2 * pow2(52),
        ;
        assert(2 * b <= a) by (nonlinear_arith)
            requires
                a >= 2 * b * pow2(52),
                pow2(52) >= 1,
        ;
        let e = lemma_binade_above(a, 2 * b);
        lemma_pow2_unfold((e + 1) as nat);
        assert(grown(2 * b, e) == grown(b, e + 1)) by (nonlinear_arith)
            requires
                grown(2 * b, e) == 2 * b * pow2(positive(e)),
                grown(b, e + 1) == b * pow2(positive(e + 1)),
                pow2(positive(e + 1)) == 2 * pow2(positive(e)),
        ;
        e + 1
    }
}

proof fn lemma_binade_below(a: nat, b: nat) -> (e: int)
    requires
        a > 0,
        b > 0,
        a < b * pow2(53),
    ensures
        in_binade(a, b, e),
        e <= 0,
    decreases b * pow2(53) - a,
{
    lemma_pow2_pos(52);
    lemma_pow2_unfold(53);
    if a >= b * pow2(52) {
        lemma_binade_at_zero(a, b);
        0
    } else {
        assert(2 * a < b * pow2(53)) by (nonlinear_arith)
            requires
                a < b * pow2(52),
                pow2(53) == 2 * pow2(52),
        ;
        let e = lemma_binade_below(2 * a, b);
        lemma_pow2_unfold((1 - e) as nat);
        assert(shifted(2 * a, e) == shifted(a, e - 1)) by (nonlinear_arith)
            requires
                shifted(2 * a, e) == 2 * a * pow2(positive(-e)),
                shifted(a, e - 1) == a * pow2(positive(1 - e)),
                pow2(positive(1 - e)) == 2 * pow2(positive(-e)),
        ;
        e - 1
    }
}

/// The significand that a number rounds to, from the whole part `q` of the number
/// in units of `2^-s` of its last place and whether anything is left below.
pub open spec fn rounded(q: nat, unit: nat, rest: bool) -> nat {
    let f = q / unit;
    let r = q % unit;
    if 2 * r > unit || (2 * r == unit && (rest || f % 2 == 1)) {
        f + 1
    } else {
        f
    }
}

/// Rounding `p / q` where `p * unit == (whole * b + rem) * c` and `q == b * c`.
proof fn lemma_rounded(p: nat, q: nat, whole: nat, b: nat, rem: nat, c: nat, unit: nat)
    requires
        p * unit == (whole * b + rem) * c,
        q == b * c,
        rem < b,
        c > 0,
        unit > 0,
        unit % 2 == 0,
    ensures
        half_even(p, q) == rounded(whole, unit, rem > 0),
{
    let f = whole / unit;
    let r = whole % unit;
    let h = unit / 2;
    assert(whole == f * unit + r) by {
        vstd::arithmetic::div_mod::lemma_fundamental_div_mod(whole as int, unit as int);
        assert(unit * f == f * unit) by (nonlinear_arith);
    }
    assert(0 < q) by (nonlinear_arith)
        requires
            q == b * c,
            rem < b,
            c > 0,
            rem >= 0,
    ;
    let left = p - f * q;
    assert(left * unit == r * q + rem * c) by (nonlinear_arith)
        requires
            p * unit == (whole * b + rem) * c,
            q == b * c,
            whole == f * unit + r,
            left == p - f * q,
    ;
    assert(rem * c < q) by (nonlinear_arith)
        requires
            q == b * c,
            rem < b,
            c > 0,
    ;
    assert(rem * c >= 0 && (rem > 0 ==> rem * c > 0) && (rem == 0 ==> rem * c == 0)) by (nonlinear_arith)
        requires
            c > 0,
            rem >= 0,
    ;
    let tail = (rem * c) as int;
    assert(0 <= left) by (nonlinear_arith)
        requires
            left * unit == r * q + tail,
            tail >= 0,
            r >= 0,
            q > 0,
            unit > 0,
    ;
    assert(left < q) by (nonlinear_arith)
        requires
            left * unit == r * q + tail,
            tail < q,
            r + 1 <= unit,
            q > 0,
            unit > 0,
    ;
    assert(p / q == f && p % q == left) by {
        vstd::arithmetic::div_mod::lemma_fundamental_div_mod_converse(
            p as int,
            q as int,
            f as int,
            left,
        );
    }
    assert(unit == 2 * h);
    if r > h {
        assert(2 * left > q) by (nonlinear_arith)
            requires
                left * unit == r * q + tail,
                unit == 2 * h,
                r >= h + 1,
                tail >= 0,
                q > 0,
                h > 0,
        ;
    } else if r < h {
        assert(2 * left < q) by (nonlinear_arith)
            requires
                left * unit == r * q + tail,
                unit == 2 * h,
                r + 1 <= h,
                tail < q,
                q > 0,
                h > 0,
        ;
    } else {
        assert(2 * left * h == h * q + tail) by (nonlinear_arith)
            requires
                left * unit == r * q + tail,
                unit == 2 * h,
                r == h,
        ;
        assert(tail > 0 ==> 2 * left > q) by (nonlinear_arith)
            requires
                2 * left * h == h * q + tail,
                h > 0,
        ;
        assert(tail == 0 ==> 2 * left == q) by (nonlinear_arith)
            requires
                2 * left * h == h * q + tail,
                h > 0,
        ;
    }
}

/// The nearest double times `2^k`, from the whole part of `(a / b) * 2^(k + 54)`.
proof fn lemma_nearest_from_whole(a: nat, b: nat, k: nat, whole: nat, rem: nat, s: nat)
    requires
        b > 0,
        rem < b,
        a * pow2(k + 54) == whole * b + rem,
        s >= 1,
        pow2(s + 52) <= whole < pow2(s + 53),
    ensures
        nearest_times(a, b, pow2(k)) == (if s >= 54 {
            rounded(whole, pow2(s), rem > 0) * pow2((s - 54) as nat)
        } else {
            rounded(whole, pow2(s), rem > 0) / pow2((54 - s) as nat)
        }),
{
    let e: int = s - 54 - k;
    let unit = pow2(s);
    let t = pow2(k + 54);
    let c = pow2(positive(e));
    let p = shifted(a, e);
    let q = grown(b, e);
    lemma_pow2_pos(s);
    lemma_pow2_pos(52);
    lemma_pow2_pos(53);
    lemma_pow2_pos(positive(e));
    lemma_pow2_pos(positive(-e));
    lemma_pow2_unfold(s);
    lemma_pow2_adds(positive(-e), s);
    lemma_pow2_adds(k + 54, positive(e));
    lemma_pow2_adds(s, 52);
    lemma_pow2_adds(s, 53);
    assert(positive(-e) + s == k + 54 + positive(e));
    assert(pow2(positive(-e)) * unit == t * c);
    assert(p * unit == (whole * b + rem) * c) by (nonlinear_arith)
        requires
            p == a * pow2(positive(-e)),
            pow2(positive(-e)) * unit == t * c,
            a * t == whole * b + rem,
    ;
    assert(in_binade(a, b, e)) by {
        let lo = pow2(52);
        let hi = pow2(53);
        assert(q * lo <= p) by (nonlinear_arith)
            requires
                p * unit == (whole * b + rem) * c,
                q == b * c,
                unit * lo <= whole,
                unit > 0,
                rem >= 0,
                c > 0,
                b > 0,
        {
            assert((unit * lo) * b <= whole * b);
            assert((unit * lo) * b * c <= (whole * b + rem) * c);
            assert((q * lo) * unit <= p * unit);
        }
        assert(p < q * hi) by (nonlinear_arith)
            requires
                p * unit == (whole * b + rem) * c,
                q == b * c,
                whole + 1 <= unit * hi,
                unit > 0,
                rem < b,
                c > 0,
                b > 0,
        {
            assert((whole + 1) * b <= (unit * hi) * b);
            assert(whole * b + rem < (unit * hi) * b);
            assert((whole * b + rem) * c < (unit * hi) * b * c);
            assert(p * unit < (q * hi) * unit);
        }
    }
    lemma_binade_unique(a, b, e, exponent(a, b));
    lemma_rounded(p, q, whole, b, rem, c, unit);
    let m = rounded(whole, unit, rem > 0);
    lemma_pow2_pos(s + 52);
    assert(a > 0) by (nonlinear_arith)
        requires
            a * t == whole * b + rem,
            whole >= 1,
            b >= 1,
            rem >= 0,
    ;
    assert(nearest(a, b) == (m * c, pow2(positive(-e))));
    lemma_scale_back(m, e, k, s);
}

proof fn lemma_scale_back(m: nat, e: int, k: nat, s: nat)
    requires
        e + k == s - 54,
    ensures
        m * pow2(positive(e)) * pow2(k) / pow2(positive(-e)) == (if s >= 54 {
            m * pow2((s - 54) as nat)
        } else {
            m / pow2((54 - s) as nat)
        }),
{
    lemma_pow2_pos(positive(-e));
    lemma_pow2_pos(k);
    if e >= 0 {
        lemma2_to64();
        lemma_pow2_adds(e as nat, k);
        let x = pow2(e as nat);
        let y = pow2(k);
        assert(m * x * y == m * (x * y)) by (nonlinear_arith);
        assert(pow2(positive(-e)) == 1);
    } else {
        let d = (-e) as nat;
        lemma2_to64();
        assert(pow2(positive(e)) == 1);
        if s >= 54 {
            let g = (s - 54) as nat;
            lemma_pow2_adds(g, d);
            assert(m * pow2(k) == (m * pow2(g)) * pow2(d)) by (nonlinear_arith)
                requires
                    pow2(k) == pow2(g) * pow2(d),
            ;
            vstd::arithmetic::div_mod::lemma_div_multiples_vanish(
                (m * pow2(g)) as int,
                pow2(d) as int,
            );
            assert(pow2(d) * (m * pow2(g)) == (m * pow2(g)) * pow2(d)) by (nonlinear_arith);
        } else {
            let g = (54 - s) as nat;
            lemma_pow2_pos(g);
            lemma_pow2_adds(k, g);
            vstd::arithmetic::div_mod::lemma_div_denominator(
                (m * pow2(k)) as int,
                pow2(k) as int,
                pow2(g) as int,
            );
            vstd::arithmetic::div_mod::lemma_div_multiples_vanish(m as int, pow2(k) as int);
            assert(pow2(k) * m == m * pow2(k)) by (nonlinear_arith);
        }
    }
}

/// A number that is below one half after the multiplication leaves no whole part.
pub(crate) proof fn lemma_nearest_small(a: nat, b: nat, k: nat)
    requires
        b > 0,
        2 * a * pow2(k) < b,
    ensures
        nearest_times(a, b, pow2(k)) == 0,
{
    lemma_pow2_pos(k);
    if a == 0 {
        assert(0 * pow2(k) == 0);
    } else {
        lemma_binade_exists(a, b);
        let e = exponent(a, b);
        let p = shifted(a, e);
        let q = grown(b, e);
        lemma_pow2_pos(52);
        lemma_pow2_pos(positive(e));
        lemma_pow2_pos(positive(-e));
        if e + k >= -53 {
            let d = k + positive(-e) + 53;
            lemma_binade_scaled(a, b, e, d);
            lemma_pow2_adds(k + 1, (d - k - 1) as nat);
            lemma_pow2_unfold(k + 1);
            lemma_pow2_pos((d - k - 1) as nat);
            lemma_pow2_monotone((d - k - 1) as nat, (52 + e + d) as nat);
            let u = pow2((d - k - 1) as nat);
            let v = pow2((52 + e + d) as nat);
            assert(a * pow2(d) < b * v) by (nonlinear_arith)
                requires
                    2 * a * pow2(k) < b,
                    pow2(d) == pow2(k + 1) * u,
                    pow2(k + 1) == 2 * pow2(k),
                    0 < u <= v,
                    b > 0,
            {
                assert(a * pow2(d) == (2 * a * pow2(k)) * u);
                assert((2 * a * pow2(k)) * u < b * u);
                assert(b * u <= b * v);
            }
            assert(false);
        }
        let m = half_even(p, q);
        assert(q > 0) by (nonlinear_arith)
            requires
                q == b * pow2(positive(e)),
                b > 0,
                pow2(positive(e)) > 0,
        ;
        assert(m <= pow2(53)) by {
            let h = pow2(53);
            assert(p / q < h) by {
                vstd::arithmetic::div_mod::lemma_fundamental_div_mod(p as int, q as int);
                vstd::arithmetic::div_mod::lemma_mod_bound(p as int, q as int);
                let f = p / q;
                let r = p % q;
                assert(f < h) by (nonlinear_arith)
                    requires
                        p == q * f + r,
                        r >= 0,
                        p < q * h,
                        q > 0,
                ;
            }
        }
        lemma2_to64();
        assert(pow2(positive(e)) == 1);
        let g = (-e - k) as nat;
        lemma_pow2_adds(k, g);
        lemma_pow2_strictly_increases(53, g);
        let x = pow2(k);
        let y = pow2(g);
        assert(m * 1 * x < x * y) by (nonlinear_arith)
            requires
                m < y,
                x > 0,
        ;
        vstd::arithmetic::div_mod::lemma_basic_div((m * pow2(positive(e)) * x) as int, (x * y) as int);
    }
}

/// A number that is at least 2^64 after the multiplication stays so.
pub(crate) proof fn lemma_nearest_large(a: nat, b: nat, k: nat)
    requires
        b > 0,
        a * pow2(k) >= b * pow2(64),
    ensures
        nearest_times(a, b, pow2(k)) >= pow2(64),
{
    lemma_pow2_pos(64);
    assert(a > 0) by (nonlinear_arith)
        requires
            a * pow2(k) >= b * pow2(64),
            b > 0,
            pow2(64) > 0,
    ;
    lemma_binade_exists(a, b);
    let e = exponent(a, b);
    let p = shifted(a, e);
    let q = grown(b, e);
    lemma_pow2_pos(52);
    lemma_pow2_pos(k);
    lemma_pow2_pos(positive(e));
    lemma_pow2_pos(positive(-e));
    assert(e + k >= 12) by {
        if e + k < 12 {
            let d = positive(-e) + k;
            lemma_binade_scaled(a, b, e, d);
            lemma_pow2_adds(k, (d - k) as nat);
            lemma_pow2_pos((d - k) as nat);
            lemma_pow2_adds(64, (d - k) as nat);
            lemma_pow2_monotone((53 + e + d) as nat, (64 + d - k) as nat);
            let u = pow2((d - k) as nat);
            let v = pow2((53 + e + d) as nat);
            assert(a * pow2(d) >= b * v) by (nonlinear_arith)
                requires
                    a * pow2(k) >= b * pow2(64),
                    pow2(d) == pow2(k) * u,
                    pow2(64) * u >= v,
                    u > 0,
                    b > 0,
            {
                assert(a * pow2(d) == (a * pow2(k)) * u);
                assert((a * pow2(k)) * u >= (b * pow2(64)) * u);
                assert((b * pow2(64)) * u == b * (pow2(64) * u));
                assert(b * (pow2(64) * u) >= b * v);
            }
        }
    }
    let m = half_even(p, q);
    assert(q > 0) by (nonlinear_arith)
        requires
            q == b * pow2(positive(e)),
            b > 0,
            pow2(positive(e)) > 0,
    ;
    assert(m >= pow2(52)) by {
        let l = pow2(52);
        assert(p / q >= l) by {
            vstd::arithmetic::div_mod::lemma_fundamental_div_mod(p as int, q as int);
            vstd::arithmetic::div_mod::lemma_mod_bound(p as int, q as int);
            let f = p / q;
            let r = p % q;
            assert(f >= l) by (nonlinear_arith)
                requires
                    p == q * f + r,
                    r < q,
                    p >= q * l,
                    q > 0,
            ;
        }
    }
    let s = (e + k + 54) as nat;
    lemma_scale_back(m, e, k, s);
    lemma_pow2_adds(52, 12);
    lemma_pow2_monotone(12, (s - 54) as nat);
    let y = pow2((s - 54) as nat);
    assert(m * y >= pow2(52) * pow2(12)) by (nonlinear_arith)
        requires
            m >= pow2(52),
            y >= pow2(12),
    ;
}

/// The nearest double to `a / b`, times `2^k`, without its fraction, where
/// `whole + rem / b` is `(a / b) * 2^(k + 54)`.
pub(crate) fn round_scaled(
    whole: u128,
    rest: bool,
    Ghost(a): Ghost<nat>,
    Ghost(b): Ghost<nat>,
    Ghost(k): Ghost<nat>,
    Ghost(rem): Ghost<nat>,
) -> (r: u128)
    requires
        b > 0,
        rem < b,
        a * pow2(k + 54) == whole * b + rem,
        rest == (rem > 0),
        whole < pow2(118),
    ensures
        r == nearest_times(a, b, pow2(k)),
        r <= pow2(64),
{
    proof {
        lemma2_to64();
        lemma2_to64_rest();
        lemma_pow2_adds(64, 1);
    }
    if whole < 0x20_0000_0000_0000 {
        proof {
            lemma_pow2_adds(k, 54);
            let w = whole as nat;
            let x = pow2(k);
            let y = pow2(54);
            assert(2 * a * x < b) by (nonlinear_arith)
                requires
                    a * (x * y) == w * b + rem,
                    2 * (w + 1) <= y,
                    rem < b,
                    y > 0,
            {
                assert(w * b + rem < (w + 1) * b);
                assert(2 * (w + 1) * b <= y * b);
                assert((2 * a * x) * y < y * b);
            }
            lemma_nearest_small(a, b, k);
        }
        return 0;
    }
    // unit is 2^s
    let mut unit: u128 = 2;
    let ghost mut s: nat = 1;
    proof {
        lemma_pow2_adds(1, 53);
        lemma_pow2_adds(1, 52);
    }
    while whole >= unit * 0x20_0000_0000_0000
        invariant
            1 <= s <= 65,
            unit == pow2(s),
            whole < pow2(118),
            pow2(s + 52) <= whole,
            unit <= 0x2_0000_0000_0000_0000,
            pow2(65) == 0x2_0000_0000_0000_0000,
            pow2(53) == 0x20_0000_0000_0000,
            pow2(s + 53) == pow2(s) * pow2(53),
        decreases 65 - s,
    {
        proof {
            assert(s < 65) by {
                if s >= 65 {
                    assert(s + 53 == 118);
                }
            }
            lemma_pow2_unfold(s + 1);
            lemma_pow2_adds(s + 1, 53);
            lemma_pow2_monotone(s + 1, 65);
            assert(s + 1 + 52 == s + 53);
        }
        unit = unit * 2;
        proof {
            s = s + 1;
        }
    }
    let f: u128 = whole / unit;
    let r: u128 = whole % unit;
    proof {
        lemma_nearest_from_whole(a, b, k, whole as nat, rem, s);
        let w = whole as int;
        let u = unit as int;
        assert(f <= 0x20_0000_0000_0000 - 1) by {
            vstd::arithmetic::div_mod::lemma_fundamental_div_mod(w, u);
            assert(f < 0x20_0000_0000_0000) by (nonlinear_arith)
                requires
                    w == u * f + r,
                    r >= 0,
                    w < u * 0x20_0000_0000_0000,
                    u > 0,
            ;
        }
    }
    let m: u128 = if 2 * r > unit || (2 * r == unit && (rest || f % 2 == 1)) {
        f + 1
    } else {
        f
    };
    assert(m == rounded(whole as nat, pow2(s), rem > 0));
    if unit >= 0x40_0000_0000_0000 {
        proof {
            if s < 54 {
                lemma_pow2_strictly_increases(s, 54);
            }
            lemma_pow2_adds(54, (s - 54) as nat);
            lemma_pow2_monotone((s - 54) as nat, 11);
            vstd::arithmetic::div_mod::lemma_div_multiples_vanish(
                pow2((s - 54) as nat) as int,
                pow2(54) as int,
            );
        }
        let g: u128 = unit / 0x40_0000_0000_0000;
        assert(g == pow2((s - 54) as nat));
        assert(m * g <= 0x20_0000_0000_0000 * 0x800) by (nonlinear_arith)
            requires
                m <= 0x20_0000_0000_0000,
                g <= 0x800,
        ;
        m * g
    } else {
        proof {
            if s >= 54 {
                lemma_pow2_monotone(54, s);
            }
            lemma_pow2_adds(s, (54 - s) as nat);
            lemma_pow2_pos((54 - s) as nat);
            vstd::arithmetic::div_mod::lemma_div_multiples_vanish(
                pow2((54 - s) as nat) as int,
                pow2(s) as int,
            );
        }
        let g: u128 = 0x40_0000_0000_0000 / unit;
        assert(g == pow2((54 - s) as nat));
        proof {
            vstd::arithmetic::div_mod::lemma_div_is_ordered_by_denominator(m as int, 1, g as int);
        }
        m / g
    }
}

/// Rounding leaves a number alone that is a whole number up to 2^53 of powers of one half.
pub proof fn nearest_exact(a: nat, b: nat, c: nat, j: nat)
    requires
        b > 0,
        a * pow2(j) == c * b,
        c <= pow2(53),
    ensures
        nearest(a, b).0 * b == a * nearest(a, b).1,
        nearest(a, b).1 > 0,
{
    if c < pow2(53) {
        lemma_exact_below(a, b, c, j);
    } else if j > 0 {
        let i = (j - 1) as nat;
        lemma_pow2_unfold(j);
        lemma_pow2_unfold(53);
        lemma_pow2_pos(52);
        assert(a * pow2(i) == pow2(52) * b) by (nonlinear_arith)
            requires
                a * pow2(j) == c * b,
                c == 2 * pow2(52),
                pow2(j) == 2 * pow2(i),
        ;
        lemma_exact_below(a, b, pow2(52), i);
    } else {
        lemma2_to64();
        lemma2_to64_rest();
        assert(a == 0x20_0000_0000_0000 * b) by (nonlinear_arith)
            requires
                a * pow2(j) == c * b,
                c == 0x20_0000_0000_0000,
                pow2(j) == 1,
        ;
        let g = grown(b, 1);
        assert(g == 2 * b) by (nonlinear_arith)
            requires
                g == b * pow2(1),
                pow2(1) == 2,
        ;
        assert(shifted(a, 1) == a) by (nonlinear_arith)
            requires
                shifted(a, 1) == a * pow2(0),
                pow2(0) == 1,
        ;
        assert(in_binade(a, b, 1));
        lemma_binade_exists(a, b);
        lemma_binade_unique(a, b, 1, exponent(a, b));
        assert(a == 0x10_0000_0000_0000 * g);
        vstd::arithmetic::div_mod::lemma_div_multiples_vanish(0x10_0000_0000_0000, g as int);
        vstd::arithmetic::div_mod::lemma_mod_multiples_basic(0x10_0000_0000_0000, g as int);
        assert(half_even(a, g) == 0x10_0000_0000_0000);
    }
}

proof fn lemma_exact_below(a: nat, b: nat, c: nat, j: nat)
    requires
        b > 0,
        a * pow2(j) == c * b,
        c < pow2(53),
    ensures
        nearest(a, b).0 * b == a * nearest(a, b).1,
        nearest(a, b).1 > 0,
{
    lemma_pow2_pos(j);
    if a > 0 {
        lemma_binade_exists(a, b);
        let e = exponent(a, b);
        let k = j + positive(-e);
        lemma_pow2_pos(positive(-e));
        lemma_pow2_pos(positive(e));
        if e > -j {
            lemma_binade_scaled(a, b, e, k);
            let d = positive(-e);
            lemma_pow2_adds(j, d);
            lemma_pow2_adds(53, d);
            lemma_pow2_monotone(53 + d, (52 + e + k) as nat);
            let u = pow2(d);
            let v = pow2((52 + e + k) as nat);
            assert(a * pow2(k) < b * v) by (nonlinear_arith)
                requires
                    a * pow2(j) == c * b,
                    pow2(k) == pow2(j) * u,
                    c < pow2(53),
                    pow2(53) * u <= v,
                    u > 0,
                    b > 0,
            {
                assert(a * pow2(k) == (c * u) * b);
                assert(c * u < pow2(53) * u);
                assert((c * u) * b < v * b);
            }
            assert(false);
        }
        let d = (-e - j) as nat;
        lemma_pow2_adds(j, d);
        lemma2_to64();
        let s = shifted(a, e);
        let m = c * pow2(d);
        assert(s == m * b) by (nonlinear_arith)
            requires
                s == a * pow2(positive(-e)),
                pow2(positive(-e)) == pow2(j) * pow2(d),
                a * pow2(j) == c * b,
                m == c * pow2(d),
        ;
        assert(grown(b, e) == b) by (nonlinear_arith)
            requires
                grown(b, e) == b * pow2(positive(e)),
                pow2(positive(e)) == 1,
        ;
        vstd::arithmetic::div_mod::lemma_fundamental_div_mod_converse(
            s as int,
            b as int,
            m as int,
            0,
        );
        assert(nearest(a, b).0 == m) by (nonlinear_arith)
            requires
                nearest(a, b).0 == m * pow2(positive(e)),
                pow2(positive(e)) == 1,
        ;
    }
}

/// Rounding adds or takes away at most one part in 2^53.
pub proof fn nearest_close(a: nat, b: nat)
    requires
        b > 0,
    ensures
        nearest(a, b).0 * b * pow2(53) <= a * nearest(a, b).1 * (pow2(53) + 1),
        nearest(a, b).0 * b * pow2(53) >= a * nearest(a, b).1 * (pow2(53) - 1),
        nearest(a, b).1 > 0,
{
    if a > 0 {
        lemma_binade_exists(a, b);
        let e = exponent(a, b);
        let s = shifted(a, e);
        let g = grown(b, e);
        let m = half_even(s, g);
        let l = pow2(52);
        lemma_pow2_unfold(53);
        lemma_pow2_pos(52);
        lemma_pow2_pos(positive(e));
        lemma_pow2_pos(positive(-e));
        assert(g > 0) by (nonlinear_arith)
            requires
                g == b * pow2(positive(e)),
                b > 0,
                pow2(positive(e)) > 0,
        ;
        vstd::arithmetic::div_mod::lemma_fundamental_div_mod(s as int, g as int);
        let f = s / g;
        let r = s % g;
        assert(2 * (m * g) <= 2 * s + g) by (nonlinear_arith)
            requires
                s == g * f + r,
                m == f || (m == f + 1 && 2 * r >= g),
                r >= 0,
                g > 0,
        ;
        assert(2 * (m * g) >= 2 * s - g) by (nonlinear_arith)
            requires
                s == g * f + r,
                m == f + 1 || (m == f && 2 * r <= g),
                r < g,
                g > 0,
        ;
        let x = (m * g) as int;
        assert(x * (2 * l) >= s * (2 * l - 1)) by (nonlinear_arith)
            requires
                2 * x >= 2 * s - g,
                g * l <= s,
                l > 0,
        ;
        assert(x * (2 * l) <= s * (2 * l + 1)) by (nonlinear_arith)
            requires
                2 * x <= 2 * s + g,
                g * l <= s,
                l > 0,
        ;
        let (p, q) = nearest(a, b);
        assert(p * b == x) by (nonlinear_arith)
            requires
                p == m * pow2(positive(e)),
                g == b * pow2(positive(e)),
                x == m * g,
        ;
    } else {
        assert(0 * b * pow2(53) == 0) by (nonlinear_arith);
        assert(0 * 1 * (pow2(53) + 1) == 0) by (nonlinear_arith);
        assert(0 * 1 * (pow2(53) - 1) == 0) by (nonlinear_arith);
    }
}

/// The double nearest to a whole number is whole.
pub proof fn nearest_of_whole(n: nat)
    ensures
        nearest(n, 1).0 == nearest_whole(n) * nearest(n, 1).1,
        nearest(n, 1).1 > 0,
{
    let (p, q) = nearest(n, 1);
    assert(p * 1 == p);
    if n > 0 {
        let e = exponent(n, 1);
        lemma_pow2_pos(positive(-e));
        lemma2_to64();
        if e >= 0 {
            assert(q == 1);
            assert(p / 1 == p);
        } else {
            let s = shifted(n, e);
            assert(grown(1, e) == 1);
            assert(half_even(s, 1) == s);
            assert(p == s) by (nonlinear_arith)
                requires
                    p == s * pow2(positive(e)),
                    pow2(positive(e)) == 1,
            ;
            vstd::arithmetic::div_mod::lemma_div_multiples_vanish(n as int, q as int);
            assert(q * n == n * q) by (nonlinear_arith);
        }
    }
}

/// The double nearest to `n`.
pub(crate) fn round_whole(n: u64) -> (r: u128)
    ensures
        r == nearest_whole(n as nat),
        r <= 0x1_0000_0000_0000_0000,
{
    proof {
        lemma2_to64();
        lemma2_to64_rest();
        lemma_pow2_adds(64, 54);
    }
    round_scaled(
        n as u128 * 0x40_0000_0000_0000,
        false,
        Ghost(n as nat),
        Ghost(1nat),
        Ghost(0nat),
        Ghost(0nat),
    )
}

/// Rounding a quotient to a whole number moves it by at most one half, and to an even one
/// where it lies in the middle.
pub proof fn half_even_is_nearest(p: nat, q: nat)
    requires
        q > 0,
    ensures
        2 * (half_even(p, q) * q) <= 2 * p + q,
        2 * p <= 2 * (half_even(p, q) * q) + q,
        2 * (half_even(p, q) * q) == 2 * p + q || 2 * p == 2 * (half_even(p, q) * q) + q
            ==> half_even(p, q) % 2 == 0,
{
    let f = p / q;
    let r = p % q;
    vstd::arithmetic::div_mod::lemma_fundamental_div_mod(p as int, q as int);
    assert(f * q == q * f) by (nonlinear_arith);
    assert((f + 1) * q == f * q + q) by (nonlinear_arith);
}

/// Rounding gives a number of 53 significant bits, `m * 2^e`, that is as near as any, and one
/// with an even `m` where two are equally near.
pub proof fn nearest_is_correctly_rounded(a: nat, b: nat) -> (r: (int, nat))
    requires
        a > 0,
        b > 0,
    ensures
        ({
            let (e, m) = r;
            let up: nat = if e > 0 {
                pow2(e as nat)
            } else {
                1
            };
            let down: nat = if e < 0 {
                pow2((-e) as nat)
            } else {
                1
            };
            &&& nearest(a, b) == (m * up, down)
            &&& pow2(52) <= m <= pow2(53)
            &&& (b * up) * pow2(52) <= a * down < (b * up) * pow2(53)
            &&& 2 * (m * (b * up)) <= 2 * (a * down) + b * up
            &&& 2 * (a * down) <= 2 * (m * (b * up)) + b * up
            &&& (2 * (m * (b * up)) == 2 * (a * down) + b * up || 2 * (a * down) == 2 * (m * (b
                * up)) + b * up ==> m % 2 == 0)
        }),
{
    lemma_binade_exists(a, b);
    let e = exponent(a, b);
    let s = shifted(a, e);
    let g = grown(b, e);
    let m = half_even(s, g);
    lemma2_to64();
    lemma_pow2_pos(positive(e));
    lemma_pow2_pos(52);
    lemma_pow2_pos(53);
    assert(g > 0) by (nonlinear_arith)
        requires
            g == b * pow2(positive(e)),
            b > 0,
            pow2(positive(e)) > 0,
    ;
    half_even_is_nearest(s, g);
    let lo = pow2(52);
    let hi = pow2(53);
    assert(m >= lo) by (nonlinear_arith)
        requires
            g * lo <= s,
            2 * s <= 2 * (m * g) + g,
            g > 0,
    ;
    assert(m <= hi) by (nonlinear_arith)
        requires
            s < g * hi,
            2 * (m * g) <= 2 * s + g,
            g > 0,
    ;
    (e, m)
}

/// Multiplying a rounded quotient by a factor drops the fraction of the product and nothing
/// else; nothing rounds to nothing.
pub proof fn nearest_times_drops_fraction(a: nat, b: nat, factor: nat)
    requires
        b > 0,
    ensures
        ({
            let (p, q) = nearest(a, b);
            let r = nearest_times(a, b, factor);
            &&& q > 0
            &&& r * q <= p * factor < (r + 1) * q
            &&& a == 0 ==> r == 0
        }),
{
    let (p, q) = nearest(a, b);
    let r = nearest_times(a, b, factor);
    lemma_pow2_pos(positive(-exponent(a, b)));
    let v = p * factor;
    vstd::arithmetic::div_mod::lemma_fundamental_div_mod(v as int, q as int);
    assert(r * q <= v && v < (r + 1) * q) by (nonlinear_arith)
        requires
            v == q * r + v % q,
            0 <= v % q < q,
    ;
    if a == 0 {
        assert(0 * factor == 0);
    }
}

/// A whole number rounds to at most a power of two exactly if it exceeds that by at most one
/// part in 2^53.
pub proof fn nearest_below_power(n: nat, k: nat)
    ensures
        nearest_whole(n) <= pow2(k) <==> n * 0x20_0000_0000_0000 <= pow2(k)
            * 0x20_0000_0000_0001,
{
    lemma_pow2_pos(k);
    nearest_of_whole(n);
    if n > 0 {
        let (e, m) = nearest_is_correctly_rounded(n, 1);
        lemma2_to64_rest();
        let p = pow2(k);
        let w = nearest_whole(n);
        if e < 0 {
            let down = pow2((-e) as nat);
            lemma_pow2_pos((-e) as nat);
            assert(m * 1 == m && m * (1 * 1) == m);
            assert(n * down == m);
            assert(w == n) by (nonlinear_arith)
                requires
                    w * down == n * down,
                    down > 0,
            ;
            assert(n < 0x20_0000_0000_0000) by (nonlinear_arith)
                requires
                    n * down < 0x20_0000_0000_0000,
                    down > 0,
            ;
        } else {
            let s = if e > 0 {
                pow2(e as nat)
            } else {
                1
            };
            lemma2_to64();
            assert(s == pow2(e as nat));
            lemma_pow2_pos(e as nat);
            assert(1 * s == s && n * 1 == n && m * (1 * s) == m * s);
            assert(w * 1 == w);
            lemma_pow2_adds(52, e as nat);
            lemma_pow2_adds(53, e as nat);
            if k >= 53 + e {
                lemma_pow2_monotone((53 + e) as nat, k);
                assert(m * s <= 0x20_0000_0000_0000 * s) by (nonlinear_arith)
                    requires
                        m <= 0x20_0000_0000_0000,
                ;
            } else if k <= 51 + e {
                lemma_pow2_monotone(k, (51 + e) as nat);
                lemma_pow2_unfold((52 + e) as nat);
                assert(m * s >= 0x10_0000_0000_0000 * s) by (nonlinear_arith)
                    requires
                        m >= 0x10_0000_0000_0000,
                ;
            } else {
                assert(p == 0x10_0000_0000_0000 * s);
                if m >= 0x10_0000_0000_0001 {
                    assert(m * s >= 0x10_0000_0000_0001 * s) by (nonlinear_arith)
                        requires
                            m >= 0x10_0000_0000_0001,
                    ;
                    assert(w > p);
                    if 2 * n <= 2 * p + s {
                        assert(m * s <= 0x10_0000_0000_0001 * s);
                        assert(m <= 0x10_0000_0000_0001) by (nonlinear_arith)
                            requires
                                m * s <= 0x10_0000_0000_0001 * s,
                                s > 0,
                        ;
                    }
                } else {
                    assert(m == 0x10_0000_0000_0000);
                }
            }
        }
    }
}

} // verus!
