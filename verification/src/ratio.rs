//! The double nearest to a positive rational `n / d`, and how to find it from
//! the leading binary digits of the quotient and whether anything is left.
//! Exponents are not limited here: the values that matter to the callers lie
//! far inside the range of doubles.
use crate::binary::{bit_len, bit_len_exec, lemma_pow2_values, pow2_exec, lemma_bit_len, lemma_pow2_add, lemma_pow2_positive, lemma_pow2_strict};
use crate::decimal::div_round_even;
use crate::monotone::{lemma_round_even_exact, lemma_round_even_monotone, lemma_round_even_scale};
use crate::size::pow2;
use vstd::arithmetic::div_mod::*;
use vstd::prelude::*;

verus! {

/// Whether `n / d >= 2^g`.
pub open spec fn ratio_at_least(n: nat, d: nat, g: int) -> bool {
    if g >= 0 {
        n >= d * pow2(g as nat)
    } else {
        n * pow2((-g) as nat) >= d
    }
}

/// `floor(log2(n / d))`, for `n, d > 0`.
pub open spec fn ratio_log2(n: nat, d: nat) -> int {
    let g0 = bit_len(n) - bit_len(d);
    if ratio_at_least(n, d, g0) {
        g0
    } else {
        g0 - 1
    }
}

/// `n / (d * 2^k)` rounded to the nearest integer, ties to even.
pub open spec fn round_scaled(n: nat, d: nat, k: int) -> nat {
    if k >= 0 {
        div_round_even(n, d * pow2(k as nat))
    } else {
        div_round_even(n * pow2((-k) as nat), d)
    }
}

/// The double nearest to `n / d` (ties to the even mantissa), as a pair
/// `(m, e)` of value `m * 2^e` with `2^52 <= m < 2^53`; `(0, 0)` for zero.
pub open spec fn nearest_ratio(n: nat, d: nat) -> (nat, int) {
    if n == 0 {
        (0, 0)
    } else {
        let k = ratio_log2(n, d) - 52;
        let m = round_scaled(n, d, k);
        if m == pow2(53) {
            (pow2(52), k + 1)
        } else {
            (m, k)
        }
    }
}

/// `w` rounded to its 53 leading binary digits, where `sticky` tells whether
/// something was cut off below `w`, the result scaled down by `2^t`.
pub open spec fn round_sticky(w: nat, sticky: bool, t: nat) -> (nat, int) {
    let kk = (bit_len(w) - 53) as nat;
    let q = w / pow2(kk);
    let r = w % pow2(kk);
    let h = pow2((kk - 1) as nat);
    let m = if r > h || (r == h && (sticky || q % 2 == 1)) {
        q + 1
    } else {
        q
    };
    if m == pow2(53) {
        (pow2(52), kk + 1 - t)
    } else {
        (m, kk - t)
    }
}

/// `n / d >= 2^g` holds for every exponent up to one for which it holds.
pub proof fn lemma_at_least_down(n: nat, d: nat, g1: int, g2: int)
    requires
        g1 <= g2,
        ratio_at_least(n, d, g2),
    ensures
        ratio_at_least(n, d, g1),
{
    if g1 >= 0 {
        let a = g1 as nat;
        let b = g2 as nat;
        if a < b {
            lemma_pow2_strict(a, b);
        }
        assert(d * pow2(a) <= d * pow2(b)) by (nonlinear_arith)
            requires
                pow2(a) <= pow2(b),
        ;
    } else if g2 >= 0 {
        let a = (-g1) as nat;
        let b = g2 as nat;
        lemma_pow2_positive(a);
        lemma_pow2_positive(b);
        assert(n * pow2(a) >= d) by (nonlinear_arith)
            requires
                n >= d * pow2(b),
                pow2(a) >= 1,
                pow2(b) >= 1,
        ;
    } else {
        let a = (-g1) as nat;
        let b = (-g2) as nat;
        if b < a {
            lemma_pow2_strict(b, a);
        }
        assert(n * pow2(b) <= n * pow2(a)) by (nonlinear_arith)
            requires
                pow2(b) <= pow2(a),
        ;
    }
}

/// The exponent `g` with `2^g <= n / d < 2^(g + 1)` is `ratio_log2`.
pub proof fn lemma_ratio_log2(n: nat, d: nat)
    requires
        n > 0,
        d > 0,
    ensures
        ratio_at_least(n, d, ratio_log2(n, d)),
        !ratio_at_least(n, d, ratio_log2(n, d) + 1),
{
    let a = bit_len(n);
    let b = bit_len(d);
    let g0 = a - b;
    lemma_bit_len(n);
    lemma_bit_len(d);
    // 2^(a-1) <= n < 2^a and 2^(b-1) <= d < 2^b: 2^(g0-1) < n/d < 2^(g0+1)
    lemma_pow2_add((a - 1) as nat, 1);
    lemma_pow2_add((b - 1) as nat, 1);
    assert(pow2(1) == 2) by {
        assert(pow2(0) == 1);
    }
    assert(!ratio_at_least(n, d, g0 + 1)) by {
        if g0 + 1 >= 0 {
            let c = (g0 + 1) as nat;
            assert(pow2(0) == 1);
            assert(b >= 1);
            lemma_pow2_add((b - 1) as nat, c);
            assert((b - 1) as nat + c == a);
            // d * 2^c >= 2^(b-1) * 2^c = 2^a > n
            assert(d * pow2(c) >= pow2((b - 1) as nat) * pow2(c)) by (nonlinear_arith)
                requires
                    d >= pow2((b - 1) as nat),
            ;
        } else {
            let c = (-(g0 + 1)) as nat;
            lemma_pow2_add(a, c);
            assert(a + c == (b - 1) as nat);
            // n * 2^c < 2^a * 2^c = 2^(b-1) <= d
            lemma_pow2_positive(c);
            assert(n * pow2(c) < pow2(a) * pow2(c)) by (nonlinear_arith)
                requires
                    n < pow2(a),
                    pow2(c) > 0,
            ;
        }
    }
    assert(ratio_at_least(n, d, g0 - 1)) by {
        if g0 - 1 >= 0 {
            let c = (g0 - 1) as nat;
            lemma_pow2_add(b, c);
            assert(b + c == (a - 1) as nat);
            assert(d * pow2(c) <= pow2(b) * pow2(c)) by (nonlinear_arith)
                requires
                    d < pow2(b),
            ;
        } else {
            let c = (-(g0 - 1)) as nat;
            lemma_pow2_add((a - 1) as nat, c);
            assert((a - 1) as nat + c == b);
            assert(n * pow2(c) >= pow2((a - 1) as nat) * pow2(c)) by (nonlinear_arith)
                requires
                    n >= pow2((a - 1) as nat),
            ;
        }
    }
}

/// Only `ratio_log2` has `2^g <= n / d < 2^(g + 1)`.
pub proof fn lemma_ratio_log2_unique(n: nat, d: nat, g: int)
    requires
        n > 0,
        d > 0,
        ratio_at_least(n, d, g),
        !ratio_at_least(n, d, g + 1),
    ensures
        ratio_log2(n, d) == g,
{
    let h = ratio_log2(n, d);
    lemma_ratio_log2(n, d);
    if h < g {
        lemma_at_least_down(n, d, h + 1, g);
    } else if h > g {
        lemma_at_least_down(n, d, g + 1, h);
    }
}

/// The double nearest to `n / d` follows from `w = floor(n * 2^t / d)`, when
/// `w` has at least 55 binary digits, and whether the division left
/// anything: `w` is rounded to 53 digits, a cut-off exactly half being
/// rounded up when anything is left.
pub proof fn lemma_round_sticky(n: nat, d: nat, t: nat)
    requires
        n > 0,
        d > 0,
        bit_len((n * pow2(t)) / d) >= 55,
    ensures
        nearest_ratio(n, d) == round_sticky((n * pow2(t)) / d, (n * pow2(t)) % d != 0, t),
        ratio_log2(n, d) == bit_len((n * pow2(t)) / d) - 1 - t,
{
    let big = n * pow2(t);
    let w = big / d;
    let rho = big % d;
    lemma_fundamental_div_mod(big as int, d as int);
    assert(big == d * w + rho);
    let l = bit_len(w);
    lemma_bit_len(w);
    lemma_pow2_positive(t);
    let g: int = l - 1 - t;
    // 2^(l-1) <= w < 2^l gives 2^g <= n / d < 2^(g+1)
    let lm = (l - 1) as nat;
    lemma_pow2_add(lm, 1);
    assert(pow2(1) == 2) by {
        assert(pow2(0) == 1);
    }
    assert(d * pow2(lm) <= big) by (nonlinear_arith)
        requires
            pow2(lm) <= w,
            big == d * w + rho,
    ;
    assert(big < d * pow2(l)) by (nonlinear_arith)
        requires
            w < pow2(l),
            big == d * w + rho,
            rho < d,
    ;
    assert(ratio_at_least(n, d, g)) by {
        if g >= 0 {
            let c = g as nat;
            lemma_pow2_add(c, t);
            assert(c + t == lm);
            assert(d * pow2(c) * pow2(t) <= n * pow2(t)) by (nonlinear_arith)
                requires
                    d * pow2(lm) <= big,
                    big == n * pow2(t),
                    pow2(lm) == pow2(c) * pow2(t),
            ;
            assert(d * pow2(c) <= n) by (nonlinear_arith)
                requires
                    d * pow2(c) * pow2(t) <= n * pow2(t),
                    pow2(t) > 0,
            ;
        } else {
            let c = (-g) as nat;
            lemma_pow2_add(lm, c);
            assert(lm + c == t);
            assert(d * pow2(lm) <= n * pow2(c) * pow2(lm)) by (nonlinear_arith)
                requires
                    d * pow2(lm) <= big,
                    big == n * pow2(t),
                    pow2(t) == pow2(lm) * pow2(c),
            ;
            lemma_pow2_positive(lm);
            assert(d <= n * pow2(c)) by (nonlinear_arith)
                requires
                    d * pow2(lm) <= n * pow2(c) * pow2(lm),
                    pow2(lm) > 0,
            ;
        }
    }
    assert(!ratio_at_least(n, d, g + 1)) by {
        if g + 1 >= 0 {
            let c = (g + 1) as nat;
            lemma_pow2_add(c, t);
            assert(c + t == l);
            assert(n * pow2(t) < d * pow2(c) * pow2(t)) by (nonlinear_arith)
                requires
                    big < d * pow2(l),
                    big == n * pow2(t),
                    pow2(l) == pow2(c) * pow2(t),
            ;
            assert(n < d * pow2(c)) by (nonlinear_arith)
                requires
                    n * pow2(t) < d * pow2(c) * pow2(t),
                    pow2(t) > 0,
            ;
        } else {
            let c = (-(g + 1)) as nat;
            lemma_pow2_add(l, c);
            assert(l + c == t);
            assert(n * pow2(c) * pow2(l) < d * pow2(l)) by (nonlinear_arith)
                requires
                    big < d * pow2(l),
                    big == n * pow2(t),
                    pow2(t) == pow2(l) * pow2(c),
            ;
            assert(n * pow2(c) < d) by (nonlinear_arith)
                requires
                    n * pow2(c) * pow2(l) < d * pow2(l),
            ;
        }
    }
    lemma_ratio_log2_unique(n, d, g);
    // the cut: kk digits of w
    let kk = (l - 53) as nat;
    let k: int = g - 52;
    assert(k == kk - t);
    let p = pow2(kk);
    lemma_pow2_positive(kk);
    // round_scaled(n, d, k) == div_round_even(big, d * p)
    assert(round_scaled(n, d, k) == div_round_even(big, d * p)) by {
        if k >= 0 {
            let c = k as nat;
            lemma_pow2_add(c, t);
            assert(c + t == kk);
            lemma_pow2_positive(c);
            assert(d * pow2(c) > 0) by (nonlinear_arith)
                requires
                    d > 0,
                    pow2(c) > 0,
            ;
            lemma_round_even_scale(n, d * pow2(c), pow2(t));
            assert(d * pow2(c) * pow2(t) == d * p) by (nonlinear_arith)
                requires
                    p == pow2(c) * pow2(t),
            ;
        } else {
            let c = (-k) as nat;
            lemma_pow2_add(c, kk);
            assert(c + kk == t);
            lemma_round_even_scale(n * pow2(c), d, p);
            assert(n * pow2(c) * p == big) by (nonlinear_arith)
                requires
                    big == n * pow2(t),
                    pow2(t) == pow2(c) * p,
            ;
        }
    }
    // the rounded quotient from the digits of w
    let q = w / p;
    let r = w % p;
    lemma_fundamental_div_mod(w as int, p as int);
    assert(w == p * q + r);
    let h = pow2((kk - 1) as nat);
    assert(p == 2 * h) by {
        assert(kk >= 2);
    }
    let rem = d * r + rho;
    assert(big == q * (d * p) + rem) by (nonlinear_arith)
        requires
            big == d * w + rho,
            w == p * q + r,
            rem == d * r + rho,
    ;
    assert(rem < d * p) by (nonlinear_arith)
        requires
            r < p,
            rho < d,
            rem == d * r + rho,
            r + 1 <= p,
    ;
    assert(d * p > 0) by (nonlinear_arith)
        requires
            d > 0,
            p > 0,
    ;
    lemma_fundamental_div_mod_converse(big as int, (d * p) as int, q as int, rem as int);
    if r > h {
        assert(2 * rem > d * p) by (nonlinear_arith)
            requires
                r >= h + 1,
                p == 2 * h,
                rem == d * r + rho,
                d > 0,
        ;
    } else if r < h {
        assert(2 * rem < d * p) by (nonlinear_arith)
            requires
                r + 1 <= h,
                p == 2 * h,
                rem == d * r + rho,
                rho < d,
        ;
    } else {
        assert(2 * rem == d * p + 2 * rho) by (nonlinear_arith)
            requires
                r == h,
                p == 2 * h,
                rem == d * r + rho,
        ;
    }
}

/// `n / d >= 2^(k + c)` compares `n / (d * 2^k)` with `2^c`.
pub proof fn lemma_at_least_scaled(n: nat, d: nat, k: int, c: nat)
    ensures
        ratio_at_least(n, d, k + c) <==> (if k >= 0 {
            n >= d * pow2(k as nat) * pow2(c)
        } else {
            n * pow2((-k) as nat) >= d * pow2(c)
        }),
{
    if k >= 0 {
        lemma_pow2_add(k as nat, c);
        assert(d * pow2(k as nat) * pow2(c) == d * (pow2(k as nat) * pow2(c))) by (nonlinear_arith);
    } else {
        let a = (-k) as nat;
        lemma_pow2_positive(a);
        if k + c >= 0 {
            let b = (k + c) as nat;
            lemma_pow2_add(b, a);
            assert(b + a == c);
            assert(n >= d * pow2(b) <==> n * pow2(a) >= d * pow2(b) * pow2(a)) by (nonlinear_arith)
                requires
                    pow2(a) > 0,
            ;
            assert(d * pow2(b) * pow2(a) == d * pow2(c)) by (nonlinear_arith)
                requires
                    pow2(c) == pow2(b) * pow2(a),
            ;
        } else {
            let b = (-(k + c)) as nat;
            lemma_pow2_add(b, c);
            assert(b + c == a);
            lemma_pow2_positive(c);
            assert(n * pow2(b) >= d <==> n * pow2(b) * pow2(c) >= d * pow2(c)) by (nonlinear_arith)
                requires
                    pow2(c) > 0,
            ;
            assert(n * pow2(b) * pow2(c) == n * pow2(a)) by (nonlinear_arith)
                requires
                    pow2(a) == pow2(b) * pow2(c),
            ;
        }
    }
}

/// The double nearest to a positive ratio is normal, and its exponent is 52
/// or 51 below `floor(log2(n / d))`.
pub proof fn lemma_nearest_ratio_shape(n: nat, d: nat)
    requires
        n > 0,
        d > 0,
    ensures
        pow2(52) <= nearest_ratio(n, d).0 < pow2(53),
        ratio_log2(n, d) - 52 <= nearest_ratio(n, d).1 <= ratio_log2(n, d) - 51,
{
    let g = ratio_log2(n, d);
    let k = g - 52;
    lemma_ratio_log2(n, d);
    lemma_at_least_scaled(n, d, k, 52);
    lemma_at_least_scaled(n, d, k, 53);
    assert(k + 52 == g && k + 53 == g + 1);
    lemma_pow2_positive(52);
    lemma_pow2_strict(52, 53);
    let (num, den) = if k >= 0 {
        (n, d * pow2(k as nat))
    } else {
        (n * pow2((-k) as nat), d)
    };
    assert(den > 0) by {
        if k >= 0 {
            lemma_pow2_positive(k as nat);
            assert(d * pow2(k as nat) > 0) by (nonlinear_arith)
                requires
                    d > 0,
                    pow2(k as nat) > 0,
            ;
        }
    }
    assert(pow2(52) * den <= num && num < pow2(53) * den) by (nonlinear_arith)
        requires
            num >= den * pow2(52),
            num < den * pow2(53),
    ;
    assert(pow2(52) * den * den <= num * den) by (nonlinear_arith)
        requires
            pow2(52) * den <= num,
            den > 0,
    ;
    lemma_round_even_monotone(pow2(52) * den, den, num, den);
    lemma_round_even_exact(pow2(52), den);
    assert(num * den <= pow2(53) * den * den) by (nonlinear_arith)
        requires
            num < pow2(53) * den,
            den > 0,
    ;
    lemma_round_even_monotone(num, den, pow2(53) * den, den);
    lemma_round_even_exact(pow2(53), den);
    assert(round_scaled(n, d, k) == div_round_even(num, den));
}

/// `w`, of 55 to 128 binary digits, rounded to 53 of them (see
/// `round_sticky`), with `t` at most 1000.
pub fn round_sticky_exec(w: u128, sticky: bool, t: u32) -> (r: (u64, i32))
    requires
        bit_len(w as nat) >= 55,
        t <= 1000,
    ensures
        r.0 as nat == round_sticky(w as nat, sticky, t as nat).0,
        r.1 as int == round_sticky(w as nat, sticky, t as nat).1,
{
    let l = bit_len_exec(w);
    let kk = l - 53;
    proof {
        lemma_pow2_values();
        lemma_bit_len(w as nat);
        lemma_pow2_add(53, kk as nat);
        lemma_pow2_add(52, kk as nat);
        assert(l <= 128);
    }
    let p = pow2_exec(kk);
    proof {
        lemma_pow2_positive(kk as nat);
        lemma_pow2_add((kk - 1) as nat, 1);
        assert(pow2(1) == 2) by {
            assert(pow2(0) == 1);
        }
    }
    let q = w / p;
    let r = w % p;
    let h = p / 2;
    assert(h == pow2((kk - 1) as nat));
    let up = r > h || (r == h && (sticky || q % 2 == 1));
    proof {
        // q < 2^53, so q + 1 fits
        lemma_fundamental_div_mod(w as int, p as int);
        assert(q < pow2(53)) by (nonlinear_arith)
            requires
                w < pow2((53 + kk) as nat),
                pow2((53 + kk) as nat) == pow2(53) * p,
                w == p * q + r,
                r >= 0,
                p > 0,
        ;
    }
    let m: u64 = if up {
        (q + 1) as u64
    } else {
        q as u64
    };
    if m == 0x20_0000_0000_0000 {
        (0x10_0000_0000_0000, kk as i32 + 1 - t as i32)
    } else {
        (m, kk as i32 - t as i32)
    }
}

} // verus!
