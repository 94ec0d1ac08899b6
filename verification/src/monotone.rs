//! Rounding keeps order: a larger exact value never rounds to a smaller
//! double. Values of doubles are compared through `magnitude`, the value
//! scaled by `2^1000` so that every double met here is a whole number.
use crate::binary::{bit_len, dadd, dmul, ddiv, round_to_u64, is_normal, lemma_bit_len, lemma_bit_len_between, lemma_pow2_add, lemma_pow2_positive, lemma_pow2_strict, nearest};
use crate::decimal::div_round_even;
use crate::size::pow2;
use vstd::arithmetic::div_mod::*;
use vstd::prelude::*;

verus! {

/// Rounding quotients to the nearest integer (ties to even) keeps their
/// order: `a / b <= c / d` gives the same order after rounding.
pub proof fn lemma_round_even_monotone(a: nat, b: nat, c: nat, d: nat)
    requires
        b > 0,
        d > 0,
        a * d <= c * b,
    ensures
        div_round_even(a, b) <= div_round_even(c, d),
{
    let q1 = a / b;
    let r1 = a % b;
    let q2 = c / d;
    let r2 = c % d;
    lemma_fundamental_div_mod(a as int, b as int);
    lemma_fundamental_div_mod(c as int, d as int);
    assert(a == b * q1 + r1);
    assert(c == d * q2 + r2);
    assert(r1 < b && r2 < d);
    assert(q1 <= q2) by {
        assert(q1 * d * b <= c * b) by (nonlinear_arith)
            requires
                a == b * q1 + r1,
                a * d <= c * b,
                r1 >= 0,
                d > 0,
        ;
        assert(q1 * d <= c) by (nonlinear_arith)
            requires
                q1 * d * b <= c * b,
                b > 0,
        ;
        assert(q1 <= q2) by (nonlinear_arith)
            requires
                q1 * d <= c,
                c == d * q2 + r2,
                r2 < d,
                d > 0,
        ;
    }
    if q1 == q2 {
        assert(r1 * d <= r2 * b) by (nonlinear_arith)
            requires
                a == b * q1 + r1,
                c == d * q1 + r2,
                a * d <= c * b,
        ;
        if 2 * r1 > b {
            assert(2 * r2 > d) by (nonlinear_arith)
                requires
                    2 * r1 > b,
                    r1 * d <= r2 * b,
                    b > 0,
                    d > 0,
            ;
        } else if 2 * r1 == b {
            assert(2 * r2 >= d) by (nonlinear_arith)
                requires
                    2 * r1 == b,
                    r1 * d <= r2 * b,
                    b > 0,
                    d > 0,
            ;
        }
    }
}

/// A whole multiple of the divisor rounds to its exact quotient.
pub proof fn lemma_round_even_exact(m: nat, p: nat)
    requires
        p > 0,
    ensures
        div_round_even(m * p, p) == m,
{
    lemma_fundamental_div_mod_converse((m * p) as int, p as int, m as int, 0);
}

/// Scaling dividend and divisor alike does not change the rounded quotient.
pub proof fn lemma_round_even_scale(a: nat, b: nat, c: nat)
    requires
        b > 0,
        c > 0,
    ensures
        div_round_even(a * c, b * c) == div_round_even(a, b),
{
    let q = a / b;
    let r = a % b;
    lemma_fundamental_div_mod(a as int, b as int);
    assert(a * c == q * (b * c) + r * c) by (nonlinear_arith)
        requires
            a == b * q + r,
    ;
    assert(r * c < b * c) by (nonlinear_arith)
        requires
            r < b,
            c > 0,
    ;
    assert(b * c > 0) by (nonlinear_arith)
        requires
            b > 0,
            c > 0,
    ;
    lemma_fundamental_div_mod_converse((a * c) as int, (b * c) as int, q as int, (r * c) as int);
    assert(2 * (r * c) > b * c <==> 2 * r > b) by (nonlinear_arith)
        requires
            c > 0,
    ;
    assert(2 * (r * c) == b * c <==> 2 * r == b) by (nonlinear_arith)
        requires
            c > 0,
    ;
}

/// `v` kept to its 53 leading binary digits: rounded to the nearest such
/// number, ties to the one whose last kept digit is even.
pub open spec fn round53(v: nat) -> nat {
    let l = bit_len(v);
    if l <= 53 {
        v
    } else {
        let k = (l - 53) as nat;
        div_round_even(v, pow2(k)) * pow2(k)
    }
}

/// The value `m * 2^e` of a double, times `2^1000`.
pub open spec fn magnitude(x: (nat, int)) -> nat {
    x.0 * pow2((x.1 + 1000) as nat)
}

/// A larger number has at least as many binary digits.
pub proof fn lemma_bit_len_monotone(u: nat, v: nat)
    requires
        u <= v,
    ensures
        bit_len(u) <= bit_len(v),
{
    lemma_bit_len(u);
    lemma_bit_len(v);
    if bit_len(u) > bit_len(v) {
        assert(u > 0);
        if bit_len(v) < (bit_len(u) - 1) as nat {
            lemma_pow2_strict(bit_len(v), (bit_len(u) - 1) as nat);
        }
    }
}

/// Rounding to 53 digits keeps order.
pub proof fn lemma_round53_monotone(u: nat, v: nat)
    requires
        u <= v,
    ensures
        round53(u) <= round53(v),
{
    let l1 = bit_len(u);
    let l2 = bit_len(v);
    lemma_bit_len_monotone(u, v);
    lemma_bit_len(u);
    lemma_bit_len(v);
    if l2 <= 53 {
    } else {
        let k2 = (l2 - 53) as nat;
        let p2 = pow2(k2);
        lemma_pow2_positive(k2);
        lemma_pow2_add(52, k2);
        assert(52 + k2 == l2 - 1);
        // the larger value rounds to at least 2^52 * p2
        assert(pow2(52) * p2 * p2 <= v * p2) by (nonlinear_arith)
            requires
                pow2(52) * p2 <= v,
                p2 > 0,
        ;
        lemma_round_even_monotone(pow2(52) * p2, p2, v, p2);
        lemma_round_even_exact(pow2(52), p2);
        let m2 = div_round_even(v, p2);
        assert(pow2(52) * p2 <= m2 * p2) by (nonlinear_arith)
            requires
                pow2(52) <= m2,
        ;
        if l1 <= 53 {
            if l1 < 53 {
                lemma_pow2_strict(l1, 53);
            }
            lemma_pow2_add(52, 1);
            assert(pow2(1) == 2) by {
                assert(pow2(0) == 1);
            }
            if k2 > 1 {
                lemma_pow2_strict(1, k2);
            }
            assert(pow2(53) <= pow2(52) * p2) by (nonlinear_arith)
                requires
                    pow2(53) == pow2(52) * 2,
                    p2 >= 2,
            ;
        } else {
            let k1 = (l1 - 53) as nat;
            let p1 = pow2(k1);
            lemma_pow2_positive(k1);
            if l1 == l2 {
                assert(u * p2 <= v * p2) by (nonlinear_arith)
                    requires
                        u <= v,
                ;
                lemma_round_even_monotone(u, p2, v, p2);
                let m1 = div_round_even(u, p2);
                assert(m1 * p2 <= m2 * p2) by (nonlinear_arith)
                    requires
                        m1 <= m2,
                ;
            } else {
                lemma_pow2_add(53, k1);
                assert(53 + k1 == l1);
                assert(u * p1 <= pow2(53) * p1 * p1) by (nonlinear_arith)
                    requires
                        u < pow2(53) * p1,
                        p1 > 0,
                ;
                lemma_round_even_monotone(u, p1, pow2(53) * p1, p1);
                lemma_round_even_exact(pow2(53), p1);
                let m1 = div_round_even(u, p1);
                assert(m1 * p1 <= pow2(53) * p1) by (nonlinear_arith)
                    requires
                        m1 <= pow2(53),
                ;
                lemma_pow2_add(52, k1 + 1);
                assert(pow2(52 + k1 + 1) == pow2(53 + k1));
                if k1 + 1 < k2 {
                    lemma_pow2_strict(52 + k1 + 1, 52 + k2);
                }
                assert(pow2(53) * p1 <= pow2(52) * p2);
            }
        }
    }
}

/// Doubling `s` times adds `s` binary digits.
pub proof fn lemma_bit_len_shift(n: nat, s: nat)
    requires
        n > 0,
    ensures
        bit_len(n * pow2(s)) == bit_len(n) + s,
{
    let l = bit_len(n);
    lemma_bit_len(n);
    lemma_pow2_positive(s);
    lemma_pow2_add((l - 1) as nat, s);
    lemma_pow2_add(l, s);
    assert(pow2((l - 1) as nat) * pow2(s) <= n * pow2(s)) by (nonlinear_arith)
        requires
            pow2((l - 1) as nat) <= n,
    ;
    assert(n * pow2(s) < pow2(l) * pow2(s)) by (nonlinear_arith)
        requires
            n < pow2(l),
            pow2(s) > 0,
    ;
    lemma_bit_len_between(n * pow2(s), (l - 1 + s) as nat, l + s);
}

/// The double nearest to `n * 2^e` has the value of `n * 2^e` rounded to
/// 53 digits.
pub proof fn lemma_nearest_magnitude(n: nat, e: int)
    requires
        e >= -948,
    ensures
        magnitude(nearest(n, e)) == round53(n * pow2((e + 1000) as nat)),
{
    let s = (e + 1000) as nat;
    let big = n * pow2(s);
    if n == 0 {
        assert(big == 0);
        assert(bit_len(0) == 0);
        assert(0 * pow2(1000) == 0);
        assert(magnitude((0nat, 0int)) == 0);
    } else {
        let l = bit_len(n);
        lemma_bit_len(n);
        lemma_bit_len_shift(n, s);
        lemma_pow2_positive(s);
        if l >= 53 {
            let k = (l - 53) as nat;
            let pk = pow2(k);
            lemma_pow2_positive(k);
            let m = div_round_even(n, pk);
            lemma_pow2_add(k, s);
            assert(bit_len(big) == l + s);
            assert((l + s - 53) as nat == k + s);
            lemma_round_even_scale(n, pk, pow2(s));
            assert(round53(big) == m * pow2(k + s));
            assert((e + k + 1000) as nat == k + s);
            if m == pow2(53) {
                assert(pow2((e + k + 1 + 1000) as nat) == 2 * pow2(k + s));
                assert(pow2(53) == 2 * pow2(52));
                assert(magnitude(nearest(n, e)) == pow2(52) * (2 * pow2(k + s)));
                assert(pow2(52) * (2 * pow2(k + s)) == (2 * pow2(52)) * pow2(k + s)) by (nonlinear_arith);
            } else {
                assert(magnitude(nearest(n, e)) == m * pow2(k + s));
            }
        } else {
            let k = (53 - l) as nat;
            assert(k <= 52);
            let t = (e - k + 1000) as nat;
            assert(t + k == s);
            lemma_pow2_add(k, t);
            assert(magnitude(nearest(n, e)) == (n * pow2(k)) * pow2(t));
            assert((n * pow2(k)) * pow2(t) == n * (pow2(k) * pow2(t))) by (nonlinear_arith);
            if l + s > 53 {
                let kb = (l + s - 53) as nat;
                assert(kb + k == s);
                lemma_pow2_add(k, kb);
                lemma_pow2_positive(kb);
                assert(big == (n * pow2(k)) * pow2(kb)) by (nonlinear_arith)
                    requires
                        big == n * pow2(s),
                        pow2(s) == pow2(k) * pow2(kb),
                ;
                lemma_round_even_exact(n * pow2(k), pow2(kb));
            }
        }
    }
}

/// Rounding keeps order: of two values `n * 2^e`, the larger has the
/// larger (or the same) nearest double.
pub proof fn lemma_nearest_monotone(n1: nat, e1: int, n2: nat, e2: int)
    requires
        e1 >= -948,
        e2 >= -948,
        n1 * pow2((e1 + 1000) as nat) <= n2 * pow2((e2 + 1000) as nat),
    ensures
        magnitude(nearest(n1, e1)) <= magnitude(nearest(n2, e2)),
{
    lemma_nearest_magnitude(n1, e1);
    lemma_nearest_magnitude(n2, e2);
    lemma_round53_monotone(n1 * pow2((e1 + 1000) as nat), n2 * pow2((e2 + 1000) as nat));
}

/// A double rounds to itself.
pub proof fn lemma_nearest_normal(x: (nat, int))
    requires
        is_normal(x),
    ensures
        nearest(x.0, x.1) == x,
{
    if x.0 > 0 {
        assert(pow2(52) <= x.0 < pow2(53));
        lemma_bit_len_between(x.0, 52, 53);
        assert(pow2(0) == 1);
        lemma_round_even_exact(x.0, 1);
        assert(x.0 * 1 == x.0);
    }
}

/// The exact product of two doubles, scaled as `magnitude` is, times `2^1000`,
/// is the product of their magnitudes.
proof fn lemma_product_magnitude(x: (nat, int), y: (nat, int))
    requires
        x.1 >= -1000,
        y.1 >= -1000,
        x.1 + y.1 >= -1000,
    ensures
        x.0 * y.0 * pow2((x.1 + y.1 + 1000) as nat) * pow2(1000) == magnitude(x) * magnitude(y),
{
    let a = (x.1 + 1000) as nat;
    let b = (y.1 + 1000) as nat;
    let c = (x.1 + y.1 + 1000) as nat;
    assert(c + 1000 == a + b);
    lemma_pow2_add(c, 1000);
    lemma_pow2_add(a, b);
    assert(x.0 * y.0 * pow2(c) * pow2(1000) == x.0 * y.0 * (pow2(c) * pow2(1000))) by (nonlinear_arith);
    assert(x.0 * y.0 * (pow2(a) * pow2(b)) == (x.0 * pow2(a)) * (y.0 * pow2(b))) by (nonlinear_arith);
}

/// Multiplying doubles keeps order in both factors.
pub proof fn lemma_dmul_monotone(x1: (nat, int), y1: (nat, int), x2: (nat, int), y2: (nat, int))
    requires
        x1.1 >= -1000,
        y1.1 >= -1000,
        x2.1 >= -1000,
        y2.1 >= -1000,
        x1.1 + y1.1 >= -948,
        x2.1 + y2.1 >= -948,
        magnitude(x1) <= magnitude(x2),
        magnitude(y1) <= magnitude(y2),
    ensures
        magnitude(dmul(x1, y1)) <= magnitude(dmul(x2, y2)),
{
    lemma_product_magnitude(x1, y1);
    lemma_product_magnitude(x2, y2);
    let p1 = x1.0 * y1.0 * pow2((x1.1 + y1.1 + 1000) as nat);
    let p2 = x2.0 * y2.0 * pow2((x2.1 + y2.1 + 1000) as nat);
    assert(magnitude(x1) * magnitude(y1) <= magnitude(x2) * magnitude(y2)) by (nonlinear_arith)
        requires
            magnitude(x1) <= magnitude(x2),
            magnitude(y1) <= magnitude(y2),
    ;
    lemma_pow2_positive(1000);
    assert(p1 <= p2) by (nonlinear_arith)
        requires
            p1 * pow2(1000) <= p2 * pow2(1000),
            pow2(1000) > 0,
    ;
    assert(x1.0 * y1.0 * pow2((x1.1 + y1.1 + 1000) as nat) == (x1.0 * y1.0) * pow2((x1.1 + y1.1 + 1000) as nat));
    lemma_nearest_monotone(x1.0 * y1.0, x1.1 + y1.1, x2.0 * y2.0, x2.1 + y2.1);
}

/// Adding a positive double to a double gives the double nearest to the sum
/// of their values.
pub proof fn lemma_dadd_magnitude(x: (nat, int), c: (nat, int))
    requires
        is_normal(x),
        is_normal(c),
        c.0 > 0,
        x.1 >= -948,
        c.1 >= -948,
    ensures
        magnitude(dadd(x, c)) == round53(magnitude(x) + magnitude(c)),
{
    if x.0 == 0 {
        lemma_nearest_normal(c);
        lemma_nearest_magnitude(c.0, c.1);
        assert(magnitude(x) == 0);
    } else {
        let e = if x.1 <= c.1 {
            x.1
        } else {
            c.1
        };
        let dx = (x.1 - e) as nat;
        let dc = (c.1 - e) as nat;
        let t = (e + 1000) as nat;
        let sum = x.0 * pow2(dx) + c.0 * pow2(dc);
        lemma_nearest_magnitude(sum, e);
        lemma_pow2_add(dx, t);
        lemma_pow2_add(dc, t);
        assert(dx + t == (x.1 + 1000) as nat);
        assert(dc + t == (c.1 + 1000) as nat);
        assert(sum * pow2(t) == x.0 * (pow2(dx) * pow2(t)) + c.0 * (pow2(dc) * pow2(t))) by (nonlinear_arith)
            requires
                sum == x.0 * pow2(dx) + c.0 * pow2(dc),
        ;
    }
}

/// Adding the same positive double keeps order.
pub proof fn lemma_dadd_monotone(x1: (nat, int), x2: (nat, int), c: (nat, int))
    requires
        is_normal(x1),
        is_normal(x2),
        is_normal(c),
        c.0 > 0,
        x1.1 >= -948,
        x2.1 >= -948,
        c.1 >= -948,
        magnitude(x1) <= magnitude(x2),
    ensures
        magnitude(dadd(x1, c)) <= magnitude(dadd(x2, c)),
{
    lemma_dadd_magnitude(x1, c);
    lemma_dadd_magnitude(x2, c);
    lemma_round53_monotone(magnitude(x1) + magnitude(c), magnitude(x2) + magnitude(c));
}

/// The quotient of two positive doubles as a rounded mantissa `q`, between
/// `2^52` and `2^53`, at the exponent `x.1 - c.1 - 52 - r`.
proof fn lemma_ddiv_magnitude(x: (nat, int), c: (nat, int))
    requires
        is_normal(x),
        is_normal(c),
        x.0 > 0,
        c.0 > 0,
        x.1 - c.1 >= -947,
    ensures
        ({
            let r: nat = if x.0 >= c.0 { 0 } else { 1 };
            let q = div_round_even(x.0 * pow2(52 + r), c.0);
            &&& pow2(52) <= q <= pow2(53)
            &&& magnitude(ddiv(x, c)) == q * pow2((x.1 - c.1 - 52 - r + 1000) as nat)
        }),
{
    let r: nat = if x.0 >= c.0 {
        0
    } else {
        1
    };
    let num = x.0 * pow2(52 + r);
    let q = div_round_even(num, c.0);
    lemma_pow2_add(52, r);
    lemma_pow2_add(52, 1);
    assert(pow2(1) == 2) by {
        assert(pow2(0) == 1);
    }
    lemma_pow2_positive(52 + r);
    if r == 0 {
        assert(pow2(52) * c.0 <= num) by (nonlinear_arith)
            requires
                c.0 <= x.0,
                num == x.0 * pow2(52),
        ;
        assert(num < pow2(53) * c.0) by (nonlinear_arith)
            requires
                x.0 < pow2(53),
                pow2(52) <= c.0,
                num == x.0 * pow2(52),
                pow2(53) == pow2(52) * 2,
        ;
    } else {
        assert(pow2(52) * c.0 <= num) by (nonlinear_arith)
            requires
                pow2(52) <= x.0,
                c.0 < pow2(53),
                num == x.0 * pow2(53),
                pow2(53) == pow2(52) * 2,
        ;
        assert(num < pow2(53) * c.0) by (nonlinear_arith)
            requires
                x.0 < c.0,
                num == x.0 * pow2(53),
                pow2(53) > 0,
        ;
    }
    assert(pow2(52) * c.0 * c.0 <= num * c.0) by (nonlinear_arith)
        requires
            pow2(52) * c.0 <= num,
            c.0 > 0,
    ;
    lemma_round_even_monotone(pow2(52) * c.0, c.0, num, c.0);
    lemma_round_even_exact(pow2(52), c.0);
    assert(num * c.0 <= pow2(53) * c.0 * c.0) by (nonlinear_arith)
        requires
            num < pow2(53) * c.0,
            c.0 > 0,
    ;
    lemma_round_even_monotone(num, c.0, pow2(53) * c.0, c.0);
    lemma_round_even_exact(pow2(53), c.0);
    let t = (x.1 - c.1 - 52 - r + 1000) as nat;
    if q == pow2(53) {
        assert(pow2((x.1 - c.1 - 52 - r + 1 + 1000) as nat) == 2 * pow2(t));
        assert(pow2(52) * (2 * pow2(t)) == (pow2(52) * 2) * pow2(t)) by (nonlinear_arith);
    }
}

/// Dividing a positive double by a larger positive double gives a smaller
/// (or the same) quotient.
pub proof fn lemma_ddiv_antitone(x: (nat, int), c1: (nat, int), c2: (nat, int))
    requires
        is_normal(x),
        is_normal(c1),
        is_normal(c2),
        x.0 > 0,
        c1.0 > 0,
        c2.0 > 0,
        c1.1 >= -1000,
        c2.1 >= -1000,
        x.1 - c1.1 >= -947,
        x.1 - c2.1 >= -947,
        magnitude(c1) <= magnitude(c2),
    ensures
        magnitude(ddiv(x, c2)) <= magnitude(ddiv(x, c1)),
{
    lemma_pow2_add(52, 1);
    assert(pow2(1) == 2) by {
        assert(pow2(0) == 1);
    }
    let a1 = (c1.1 + 1000) as nat;
    let a2 = (c2.1 + 1000) as nat;
    lemma_pow2_positive(a1);
    lemma_pow2_positive(a2);
    // the larger divisor has the larger (or the same) exponent
    if c1.1 > c2.1 {
        lemma_pow2_add(a2, 1);
        if a2 + 1 < a1 {
            lemma_pow2_strict(a2 + 1, a1);
        }
        assert(pow2(a2 + 1) <= pow2(a1));
        assert(magnitude(c2) < pow2(53) * pow2(a2)) by (nonlinear_arith)
            requires
                magnitude(c2) == c2.0 * pow2(a2),
                c2.0 < pow2(53),
                pow2(a2) > 0,
        ;
        assert(pow2(53) * pow2(a2) == pow2(52) * pow2(a2 + 1)) by (nonlinear_arith)
            requires
                pow2(53) == pow2(52) * 2,
                pow2(a2 + 1) == pow2(a2) * 2,
        ;
        assert(pow2(52) * pow2(a2 + 1) <= magnitude(c1)) by (nonlinear_arith)
            requires
                magnitude(c1) == c1.0 * pow2(a1),
                pow2(52) <= c1.0,
                pow2(a2 + 1) <= pow2(a1),
        ;
        assert(false);
    }
    if c1.1 == c2.1 {
        assert(c1.0 <= c2.0) by (nonlinear_arith)
            requires
                c1.0 * pow2(a1) <= c2.0 * pow2(a1),
                pow2(a1) > 0,
        ;
    }
    let r1: nat = if x.0 >= c1.0 { 0 } else { 1 };
    let r2: nat = if x.0 >= c2.0 { 0 } else { 1 };
    let n1 = x.0 * pow2(52 + r1);
    let n2 = x.0 * pow2(52 + r2);
    let q1 = div_round_even(n1, c1.0);
    let q2 = div_round_even(n2, c2.0);
    lemma_ddiv_magnitude(x, c1);
    lemma_ddiv_magnitude(x, c2);
    let t1 = (x.1 - c1.1 - 52 - r1 + 1000) as nat;
    let t2 = (x.1 - c2.1 - 52 - r2 + 1000) as nat;
    lemma_pow2_positive(t1);
    lemma_pow2_positive(t2);
    if t2 < t1 {
        lemma_pow2_add(t2, 1);
        if t2 + 1 < t1 {
            lemma_pow2_strict(t2 + 1, t1);
        }
        assert(pow2(t2 + 1) <= pow2(t1));
        assert(q2 * pow2(t2) <= pow2(53) * pow2(t2)) by (nonlinear_arith)
            requires
                q2 <= pow2(53),
        ;
        assert(pow2(53) * pow2(t2) == pow2(52) * pow2(t2 + 1)) by (nonlinear_arith)
            requires
                pow2(53) == pow2(52) * 2,
                pow2(t2 + 1) == pow2(t2) * 2,
        ;
        assert(pow2(52) * pow2(t2 + 1) <= q1 * pow2(t1)) by (nonlinear_arith)
            requires
                pow2(52) <= q1,
                pow2(t2 + 1) <= pow2(t1),
        ;
    } else {
        // equal exponents: either the same binade and the same shift, or
        // the larger divisor one binade up with the shift one less
        assert(t1 == t2);
        if c1.1 == c2.1 {
            assert(r1 == r2);
            assert(n2 * c1.0 <= n1 * c2.0) by (nonlinear_arith)
                requires
                    n1 == n2,
                    c1.0 <= c2.0,
            ;
        } else {
            assert(c2.1 == c1.1 + 1 && r1 == 1 && r2 == 0);
            lemma_pow2_add(a1, 1);
            assert(a2 == a1 + 1);
            assert(c1.0 <= 2 * c2.0) by (nonlinear_arith)
                requires
                    c1.0 * pow2(a1) <= c2.0 * pow2(a2),
                    pow2(a2) == pow2(a1) * 2,
                    pow2(a1) > 0,
            ;
            assert(n2 * c1.0 <= n1 * c2.0) by (nonlinear_arith)
                requires
                    n1 == x.0 * pow2(53),
                    n2 == x.0 * pow2(52),
                    pow2(53) == pow2(52) * 2,
                    c1.0 <= 2 * c2.0,
            ;
        }
        lemma_round_even_monotone(n2, c2.0, n1, c1.0);
        assert(q2 * pow2(t2) <= q1 * pow2(t1)) by (nonlinear_arith)
            requires
                q2 <= q1,
                t1 == t2,
        ;
    }
}

/// Rounding a double to a whole number, halves up, is adding a half to its
/// magnitude and dividing by `2^1000`.
proof fn lemma_round_to_u64_magnitude(x: (nat, int))
    requires
        x.1 >= -999,
    ensures
        ({
            let v = (magnitude(x) + pow2(999)) / pow2(1000);
            round_to_u64(x) == if v > 0xFFFF_FFFF_FFFF_FFFF { 0xFFFF_FFFF_FFFF_FFFF } else { v }
        }),
{
    let h = pow2(999);
    let dd = pow2(1000);
    lemma_pow2_positive(999);
    assert(dd == 2 * h);
    let m = magnitude(x);
    if x.1 >= 0 {
        let a = x.1 as nat;
        let v = x.0 * pow2(a);
        lemma_pow2_add(a, 1000);
        assert(m == v * dd) by (nonlinear_arith)
            requires
                m == x.0 * pow2(a + 1000),
                pow2(a + 1000) == pow2(a) * dd,
                v == x.0 * pow2(a),
        ;
        lemma_fundamental_div_mod_converse((m + h) as int, dd as int, v as int, h as int);
    } else {
        let j = (-x.1) as nat;
        let d = pow2(j);
        let u = pow2((1000 - j) as nat);
        lemma_pow2_add(j, (1000 - j) as nat);
        lemma_pow2_add((j - 1) as nat, (1000 - j) as nat);
        assert(d == 2 * pow2((j - 1) as nat));
        assert(d * u == dd);
        assert(pow2((j - 1) as nat) * u == h);
        lemma_pow2_positive(j);
        lemma_pow2_positive((1000 - j) as nat);
        let q = x.0 / d;
        let r = x.0 % d;
        lemma_fundamental_div_mod(x.0 as int, d as int);
        assert(m == x.0 * u);
        assert(m == q * dd + r * u) by (nonlinear_arith)
            requires
                x.0 == d * q + r,
                m == x.0 * u,
                dd == d * u,
        ;
        assert(r * u < dd) by (nonlinear_arith)
            requires
                r < d,
                u > 0,
                dd == d * u,
        ;
        if 2 * r >= d {
            assert(r * u >= h) by (nonlinear_arith)
                requires
                    2 * r >= d,
                    d * u == dd,
                    dd == 2 * h,
                    u > 0,
            ;
            assert(m + h == (q + 1) * dd + (r * u + h - dd)) by (nonlinear_arith)
                requires
                    m == q * dd + r * u,
            ;
            lemma_fundamental_div_mod_converse((m + h) as int, dd as int, (q + 1) as int, (r * u + h - dd) as int);
        } else {
            assert(r * u < h) by (nonlinear_arith)
                requires
                    2 * r < d,
                    d * u == dd,
                    dd == 2 * h,
                    u > 0,
            ;
            lemma_fundamental_div_mod_converse((m + h) as int, dd as int, q as int, (r * u + h) as int);
        }
    }
}

/// Rounding doubles to whole numbers keeps order.
pub proof fn lemma_round_to_u64_monotone(x: (nat, int), y: (nat, int))
    requires
        x.1 >= -999,
        y.1 >= -999,
        magnitude(x) <= magnitude(y),
    ensures
        round_to_u64(x) <= round_to_u64(y),
{
    lemma_round_to_u64_magnitude(x);
    lemma_round_to_u64_magnitude(y);
    lemma_pow2_positive(1000);
    lemma_div_is_ordered((magnitude(x) + pow2(999)) as int, (magnitude(y) + pow2(999)) as int, pow2(1000) as int);
}

} // verus!
