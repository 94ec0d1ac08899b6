//! Reading a decimal number as the double nearest to it, as std's `f64`
//! parser does, for the values from `2^-60` up to `2^64`; below and above
//! those only the side is told.
use crate::binary::{bit_len, lemma_bit_len_between, lemma_pow2_add, lemma_pow2_positive, lemma_pow2_strict, lemma_pow2_values};
use crate::decimal::{
    all_digits, digits_value, digits_value_capped, is_digit, lemma_digits_value_bound,
    lemma_digits_value_concat, lemma_pow10_add, lemma_pow10_monotone, lemma_pow10_positive, min_nat, pow10,
    scaled_fraction,
};
use crate::ratio::{
    lemma_at_least_down, lemma_nearest_ratio_shape, lemma_ratio_log2, lemma_round_sticky, nearest_ratio,
    ratio_at_least, ratio_log2, round_sticky, round_sticky_exec,
};
use crate::scaled::{cap64, lemma_pow10_20, mul_pow10_capped};
use crate::size::pow2;
use vstd::arithmetic::div_mod::*;
use vstd::prelude::*;

verus! {

/// The ratio `n / d` that a digit string of value `v` denotes with the
/// decimal exponent `x`: `v * 10^x`.
pub open spec fn decimal_ratio(v: nat, x: int) -> (nat, nat) {
    if x >= 0 {
        (v * pow10(x as nat), 1)
    } else {
        (v, pow10((-x) as nat))
    }
}

/// What reading a decimal number found.
#[derive(Debug, Clone, Copy, PartialEq, Eq)]
pub enum Reading {
    /// The number is zero.
    Zero,
    /// The number is positive and below `2^-60`.
    Small,
    /// The number is at least `2^64`.
    Large,
    /// The double nearest to the number, as a mantissa and an exponent.
    Double(u64, i32),
}

/// Whether `r` tells the truth about the ratio `n / d`.
pub open spec fn reading_of(r: Reading, n: nat, d: nat) -> bool {
    match r {
        Reading::Zero => n == 0,
        Reading::Small => n > 0 && !ratio_at_least(n, d, -60),
        Reading::Large => n > 0 && ratio_at_least(n, d, 64),
        Reading::Double(m, e) => n > 0 && ratio_at_least(n, d, -60) && !ratio_at_least(n, d, 64)
            && nearest_ratio(n, d) == (m as nat, e as int),
    }
}

/// Zero digits denote zero.
proof fn lemma_zeros_value(s: Seq<char>)
    requires
        forall|i: int| 0 <= i < s.len() ==> s[i] as u32 == '0' as u32,
    ensures
        digits_value(s) == 0,
    decreases s.len(),
{
    if s.len() > 0 {
        lemma_zeros_value(s.drop_last());
    }
}

/// Dividing in two steps: by `d`, then by `c`.
proof fn lemma_div_twice(a: nat, d: nat, c: nat)
    requires
        d > 0,
        c > 0,
    ensures
        a / d / c == a / (d * c),
        (a % (d * c) == 0) == (a % d == 0 && (a / d) % c == 0),
{
    let q1 = a / d;
    let r1 = a % d;
    lemma_fundamental_div_mod(a as int, d as int);
    let q2 = q1 / c;
    let r2 = q1 % c;
    lemma_fundamental_div_mod(q1 as int, c as int);
    assert(a == q2 * (d * c) + (d * r2 + r1)) by (nonlinear_arith)
        requires
            a == d * q1 + r1,
            q1 == c * q2 + r2,
    ;
    assert(d * r2 + r1 < d * c) by (nonlinear_arith)
        requires
            r2 + 1 <= c,
            r1 < d,
    ;
    assert(d * r2 >= 0) by (nonlinear_arith)
        requires
            d > 0,
    ;
    lemma_fundamental_div_mod_converse(a as int, (d * c) as int, q2 as int, (d * r2 + r1) as int);
    assert((d * r2 + r1 == 0) == (r2 == 0 && r1 == 0)) by (nonlinear_arith)
        requires
            d > 0,
    ;
}

/// From the quotient at `2^116` to the one at `2^64`: `w64 = w116 / 2^52`,
/// and the division at `2^64` leaves something exactly when the one at
/// `2^116` does or `w116` is not a multiple of `2^52`.
proof fn lemma_coarser(n: nat, d: nat)
    requires
        d > 0,
    ensures
        (n * pow2(116)) / d / pow2(52) == (n * pow2(64)) / d,
        ((n * pow2(64)) % d == 0) == ((n * pow2(116)) % d == 0 && ((n * pow2(116)) / d) % pow2(52) == 0),
{
    lemma_pow2_add(64, 52);
    lemma_pow2_positive(52);
    lemma_pow2_positive(64);
    let a = n * pow2(64);
    assert(n * pow2(116) == a * pow2(52)) by (nonlinear_arith)
        requires
            pow2(116) == pow2(64) * pow2(52),
            a == n * pow2(64),
    ;
    lemma_div_twice(a * pow2(52), d, pow2(52));
    let q = a / d;
    let r = a % d;
    lemma_fundamental_div_mod(a as int, d as int);
    // a * 2^52 = (d * 2^52) * q + r * 2^52
    assert(a * pow2(52) == q * (d * pow2(52)) + r * pow2(52)) by (nonlinear_arith)
        requires
            a == d * q + r,
    ;
    assert(r * pow2(52) < d * pow2(52)) by (nonlinear_arith)
        requires
            r < d,
            pow2(52) > 0,
    ;
    assert(d * pow2(52) > 0) by (nonlinear_arith)
        requires
            d > 0,
            pow2(52) > 0,
    ;
    lemma_fundamental_div_mod_converse((a * pow2(52)) as int, (d * pow2(52)) as int, q as int, (r * pow2(52)) as int);
    assert((r * pow2(52) == 0) == (r == 0)) by (nonlinear_arith)
        requires
            pow2(52) > 0,
    ;
}

/// The reading of `n / d` from its integer part `i` and the `116` binary
/// digits `fb` after the point, `exact` telling whether nothing follows.
fn finish_reading(i: u128, fb: u128, exact: bool, Ghost(n): Ghost<nat>, Ghost(d): Ghost<nat>) -> (r: Reading)
    requires
        n > 0,
        d > 0,
        i < 0x1_0000_0000_0000_0000,
        fb < pow2(116),
        (n * pow2(116)) / d == i * pow2(116) + fb,
        exact == ((n * pow2(116)) % d == 0),
    ensures
        reading_of(r, n, d),
{
    proof {
        lemma_pow2_values();
        lemma_pow2_add(64, 52);
        lemma_pow2_add(60, 56);
        lemma_pow2_add(56, 60);
        lemma_pow2_add(64, 64);
        lemma_pow2_positive(52);
        lemma_pow2_positive(56);
        lemma_pow2_positive(60);
        lemma_pow2_add(52, 4);
        lemma_pow2_add(56, 8);
        lemma_pow2_add(116, 11);
        lemma_pow2_positive(11);
        reveal_with_fuel(pow2, 12);
        assert(pow2(4) == 16);
        assert(pow2(8) == 256);
        assert(pow2(11) == 2048);
    }
    assert(pow2(116) == 0x10_0000_0000_0000_0000_0000_0000_0000);
    assert(pow2(56) == 0x100_0000_0000_0000);
    if i > 0 {
        let lo = fb / 0x10_0000_0000_0000;
        proof {
            assert(lo < pow2(64)) by {
                lemma_div_is_ordered(fb as int, pow2(116) as int, pow2(52) as int);
                lemma_div_by_multiple(pow2(64) as int, pow2(52) as int);
                assert(pow2(116) == pow2(64) * pow2(52));
                assert(fb < pow2(116));
                assert((fb as nat) / pow2(52) <= pow2(116) / pow2(52));
                assert(lo == (fb as nat) / pow2(52));
                if lo == pow2(64) {
                    lemma_fundamental_div_mod(fb as int, pow2(52) as int);
                    assert(fb >= pow2(52) * pow2(64)) by (nonlinear_arith)
                        requires
                            fb == pow2(52) * lo + (fb as nat) % pow2(52),
                            lo == pow2(64),
                            (fb as nat) % pow2(52) >= 0,
                    ;
                }
            }
            assert(i * 0x1_0000_0000_0000_0000 + lo < 0x1_0000_0000_0000_0000_0000_0000_0000_0000) by (nonlinear_arith)
                requires
                    i < 0x1_0000_0000_0000_0000,
                    lo < 0x1_0000_0000_0000_0000,
            ;
        }
        let w: u128 = i * 0x1_0000_0000_0000_0000 + lo;
        let sticky = !exact || fb % 0x10_0000_0000_0000 != 0;
        proof {
            let w116 = (n * pow2(116)) / d;
            lemma_coarser(n, d);
            // (i * 2^116 + fb) / 2^52 == i * 2^64 + fb / 2^52, same remainder as fb
            lemma_fundamental_div_mod(fb as int, pow2(52) as int);
            assert(w116 == (i * pow2(64) + lo) * pow2(52) + (fb as nat) % pow2(52)) by (nonlinear_arith)
                requires
                    w116 == i * pow2(116) + fb,
                    pow2(116) == pow2(64) * pow2(52),
                    fb == pow2(52) * lo + (fb as nat) % pow2(52),
            ;
            assert((fb as nat) % pow2(52) < pow2(52));
            lemma_fundamental_div_mod_converse(w116 as int, pow2(52) as int, (i * pow2(64) + lo) as int, ((fb as nat) % pow2(52)) as int);
            assert(w as nat == (n * pow2(64)) / d);
            assert(sticky == ((n * pow2(64)) % d != 0));
            assert(pow2(64) <= w) by (nonlinear_arith)
                requires
                    i >= 1,
                    w == i * pow2(64) + lo,
            ;
            lemma_bit_len_between(w as nat, 64, 128);
            lemma_round_sticky(n, d, 64);
            let g = ratio_log2(n, d);
            lemma_ratio_log2(n, d);
            assert(0 <= g <= 63);
            lemma_at_least_down(n, d, -60, g);
            if ratio_at_least(n, d, 64) {
                lemma_at_least_down(n, d, g + 1, 64);
            }
        }
        let (m, e) = round_sticky_exec(w, sticky, 64);
        Reading::Double(m, e)
    } else {
        if fb < 0x100_0000_0000_0000 {
            proof {
                let w116 = (n * pow2(116)) / d;
                assert(w116 == fb as nat) by {
                    assert(i == 0);
                    assert(0 * pow2(116) == 0);
                }
                assert(w116 + 1 <= pow2(56));
                lemma_fundamental_div_mod((n * pow2(116)) as int, d as int);
                assert(d * w116 + d <= d * pow2(56)) by (nonlinear_arith)
                    requires
                        w116 + 1 <= pow2(56),
                ;
                assert(n * pow2(116) < d * pow2(56));
                assert(n * pow2(60) * pow2(56) < d * pow2(56)) by (nonlinear_arith)
                    requires
                        n * pow2(116) < d * pow2(56),
                        pow2(116) == pow2(60) * pow2(56),
                ;
                assert(n * pow2(60) < d) by (nonlinear_arith)
                    requires
                        n * pow2(60) * pow2(56) < d * pow2(56),
                        pow2(56) > 0,
                ;
            }
            return Reading::Small;
        }
        let w: u128 = fb;
        let sticky = !exact;
        proof {
            assert(w as nat == (n * pow2(116)) / d);
            lemma_bit_len_between(w as nat, 56, 116);
            lemma_round_sticky(n, d, 116);
            let g = ratio_log2(n, d);
            lemma_ratio_log2(n, d);
            assert(-60 <= g <= -1);
            lemma_at_least_down(n, d, -60, g);
            if ratio_at_least(n, d, 64) {
                lemma_at_least_down(n, d, g + 1, 64);
            }
        }
        let (m, e) = round_sticky_exec(w, sticky, 116);
        Reading::Double(m, e)
    }
}

/// A digit string with a digit other than `0` denotes a positive number.
proof fn lemma_nonzero_value(s: Seq<char>, k: int)
    requires
        all_digits(s),
        0 <= k < s.len(),
        s[k] as u32 != '0' as u32,
    ensures
        digits_value(s) > 0,
    decreases s.len(),
{
    assert(digits_value(s) == digits_value(s.drop_last()) * 10 + crate::decimal::digit_value(s.last()));
    if k < s.len() - 1 {
        let t = s.drop_last();
        assert(all_digits(t)) by {
            assert forall|j: int| 0 <= j < t.len() implies #[trigger] is_digit(t[j]) by {
                assert(t[j] == s[j]);
            }
        }
        assert(t[k] == s[k]);
        lemma_nonzero_value(t, k);
    } else {
        assert(is_digit(s[k]));
        assert(s.last() == s[k]);
        assert(crate::decimal::digit_value(s[k]) >= 1);
    }
}

/// `floor(2^116 * f / 10^l)` is below `2^116` when `f < 10^l`.
proof fn lemma_fraction_bits(f: nat, l: nat)
    requires
        f < pow10(l),
    ensures
        (pow2(116) * f) / pow10(l) < pow2(116),
{
    lemma_pow10_positive(l);
    lemma_pow2_positive(116);
    let b = pow10(l);
    assert(pow2(116) * f < pow2(116) * b) by (nonlinear_arith)
        requires
            f < b,
            pow2(116) > 0,
    ;
    lemma_fundamental_div_mod((pow2(116) * f) as int, b as int);
    let q = (pow2(116) * f) / b;
    assert(b * q <= pow2(116) * f);
    assert(q < pow2(116)) by (nonlinear_arith)
        requires
            b * q <= pow2(116) * f,
            pow2(116) * f < pow2(116) * b,
            b > 0,
    ;
}

/// Reads the decimal digits `ds` with the decimal exponent `shift`, upward
/// when `up` and downward otherwise: the double nearest to the number, or
/// on which side of the range of `Reading` it lies.
pub fn read_decimal(ds: &Vec<char>, up: bool, shift: u128) -> (r: Reading)
    requires
        all_digits(ds@),
    ensures
        reading_of(
            r,
            decimal_ratio(digits_value(ds@), if up { shift as int } else { -(shift as int) }).0,
            decimal_ratio(digits_value(ds@), if up { shift as int } else { -(shift as int) }).1,
        ),
{
    let len = ds.len();
    let mut k: usize = 0;
    while k < len && ds[k] as u32 == '0' as u32
        invariant
            k <= len == ds.len(),
            forall|j: int| 0 <= j < k ==> ds@[j] as u32 == '0' as u32,
        decreases len - k,
    {
        k = k + 1;
    }
    let ghost v = digits_value(ds@);
    if k == len {
        proof {
            lemma_zeros_value(ds@);
            if up {
                assert(0 * pow10(shift as nat) == 0);
            }
        }
        return Reading::Zero;
    }
    proof {
        lemma_nonzero_value(ds@, k as int);
        lemma_pow2_values();
        lemma_digits_value_bound(ds@);
        assert(ds@.subrange(0, len as int) =~= ds@);
    }
    let two64: u128 = 0x1_0000_0000_0000_0000;
    let two116: u128 = 0x10_0000_0000_0000_0000_0000_0000_0000;
    proof {
        lemma_pow2_add(64, 52);
        lemma_pow2_add(116, 4);
        reveal_with_fuel(pow2, 5);
        assert(pow2(116) == two116);
    }
    if up {
        let vc = digits_value_capped(ds, 0, len, two64);
        let i = mul_pow10_capped(vc, shift);
        let ghost n = v * pow10(shift as nat);
        proof {
            lemma_pow10_positive(shift as nat);
            // min(min(v, c) * p, c) == min(v * p, c)
            if v >= cap64() {
                assert(v * pow10(shift as nat) >= cap64()) by (nonlinear_arith)
                    requires
                        v >= cap64(),
                        pow10(shift as nat) >= 1,
                ;
                assert(cap64() * pow10(shift as nat) >= cap64()) by (nonlinear_arith)
                    requires
                        pow10(shift as nat) >= 1,
                ;
            }
            assert(i == min_nat(n, cap64()));
            assert(n > 0) by (nonlinear_arith)
                requires
                    v > 0,
                    pow10(shift as nat) >= 1,
                    n == v * pow10(shift as nat),
            ;
        }
        if i >= two64 {
            proof {
                assert(n >= 1 * pow2(64));
            }
            return Reading::Large;
        }
        proof {
            assert(n * pow2(116) / 1 == n * pow2(116));
            assert((n * pow2(116)) % 1 == 0);
            assert(n * pow2(116) == i * pow2(116) + 0);
        }
        finish_reading(i, 0, true, Ghost(n), Ghost(1))
    } else if shift <= len as u128 {
        let p: usize = len - shift as usize;
        let ghost pre = ds@.subrange(0, p as int);
        let ghost suf = ds@.subrange(p as int, len as int);
        let ghost l = (len - p) as nat;
        let ghost d = pow10(l);
        proof {
            assert(ds@ =~= pre + suf);
            lemma_digits_value_concat(pre, suf);
            assert(all_digits(pre)) by {
                assert forall|j: int| 0 <= j < pre.len() implies #[trigger] is_digit(pre[j]) by {
                    assert(pre[j] == ds@[j]);
                }
            }
            assert(all_digits(suf)) by {
                assert forall|j: int| 0 <= j < suf.len() implies #[trigger] is_digit(suf[j]) by {
                    assert(suf[j] == ds@[p + j]);
                }
            }
            lemma_digits_value_bound(suf);
            lemma_pow10_positive(l);
            assert(l == shift);
        }
        let i = digits_value_capped(ds, 0, p, two64);
        if i >= two64 {
            proof {
                assert(digits_value(pre) >= pow2(64));
                assert(v >= d * pow2(64)) by (nonlinear_arith)
                    requires
                        v == digits_value(pre) * d + digits_value(suf),
                        digits_value(pre) >= pow2(64),
                        d > 0,
                ;
            }
            return Reading::Large;
        }
        let (fb, exact) = scaled_fraction(ds, p, len, two116);
        proof {
            let f = digits_value(suf);
            lemma_fraction_bits(f, l);
            assert(fb as nat == (pow2(116) * f) / d);
            lemma_fundamental_div_mod((pow2(116) * f) as int, d as int);
            let rem = (pow2(116) * f) % d;
            assert(v * pow2(116) == ((i * pow2(116) + fb) * d + rem)) by (nonlinear_arith)
                requires
                    v == i * d + f,
                    pow2(116) * f == d * fb + rem,
            ;
            lemma_fundamental_div_mod_converse((v * pow2(116)) as int, d as int, (i * pow2(116) + fb) as int, rem as int);
        }
        finish_reading(i, fb, exact, Ghost(v), Ghost(d))
    } else {
        let z = shift - len as u128;
        let ghost d = pow10(shift as nat);
        proof {
            lemma_pow10_add(len as nat, z as nat);
            assert(len + z == shift);
            lemma_pow10_positive(len as nat);
            lemma_pow10_positive(z as nat);
        }
        if z >= 19 {
            proof {
                lemma_pow10_20();
                assert(pow10(20) == 10 * pow10(19));
                lemma_pow10_monotone(19, z as nat);
                lemma_pow2_add(60, 4);
                assert(pow2(60) < pow10(19));
                assert(v * pow2(60) < d) by (nonlinear_arith)
                    requires
                        v < pow10(len as nat),
                        pow2(60) < pow10(19),
                        pow10(19) <= pow10(z as nat),
                        d == pow10(len as nat) * pow10(z as nat),
                ;
            }
            return Reading::Small;
        }
        let (c, ex) = scaled_fraction(ds, 0, len, two116);
        let pz = mul_pow10_capped(1, z);
        proof {
            lemma_pow10_20();
            assert(pow10(20) == 100 * pow10(18)) by {
                reveal_with_fuel(pow10, 3);
            }
            lemma_pow10_monotone(z as nat, 18);
            assert(pz == pow10(z as nat));
        }
        let fb = c / pz;
        let exact = ex && c % pz == 0;
        proof {
            lemma_div_twice(pow2(116) * v, pow10(len as nat), pow10(z as nat));
            assert(v * pow2(116) == pow2(116) * v) by (nonlinear_arith);
            assert(pow10(len as nat) * pow10(z as nat) == d);
            lemma_pow10_monotone(len as nat, shift as nat);
            lemma_fraction_bits(v, shift as nat);
            assert(fb as nat == (v * pow2(116)) / d);
            assert(0 * pow2(116) == 0);
        }
        finish_reading(0, fb, exact, Ghost(v), Ghost(d))
    }
}

/// The double nearest to a ratio from `2^-60` up to (not including) `2^64`
/// has an exponent from `-112` to `12`.
pub proof fn lemma_double_range(n: nat, d: nat)
    requires
        n > 0,
        d > 0,
        ratio_at_least(n, d, -60),
        !ratio_at_least(n, d, 64),
    ensures
        pow2(52) <= nearest_ratio(n, d).0 < pow2(53),
        -112 <= nearest_ratio(n, d).1 <= 12,
        -60 <= ratio_log2(n, d) <= 63,
{
    let g = ratio_log2(n, d);
    lemma_ratio_log2(n, d);
    lemma_nearest_ratio_shape(n, d);
    if g + 1 <= -60 {
        lemma_at_least_down(n, d, g + 1, -60);
    }
    if g >= 64 {
        lemma_at_least_down(n, d, 64, g);
    }
}

/// A ratio of at least `2^64` has a nearest double of exponent `12` or more.
pub proof fn lemma_double_large(n: nat, d: nat)
    requires
        n > 0,
        d > 0,
        ratio_at_least(n, d, 64),
    ensures
        pow2(52) <= nearest_ratio(n, d).0 < pow2(53),
        nearest_ratio(n, d).1 >= 12,
{
    let g = ratio_log2(n, d);
    lemma_ratio_log2(n, d);
    lemma_nearest_ratio_shape(n, d);
    if g < 64 {
        lemma_at_least_down(n, d, g + 1, 64);
    }
}

/// A positive ratio below `2^-60` has a nearest double of exponent `-112` or less.
pub proof fn lemma_double_small(n: nat, d: nat)
    requires
        n > 0,
        d > 0,
        !ratio_at_least(n, d, -60),
    ensures
        pow2(52) <= nearest_ratio(n, d).0 < pow2(53),
        nearest_ratio(n, d).1 <= -112,
{
    let g = ratio_log2(n, d);
    lemma_ratio_log2(n, d);
    lemma_nearest_ratio_shape(n, d);
    if g >= -60 {
        lemma_at_least_down(n, d, -60, g);
    }
}

/// The digits `u[p1..me]` followed by `u[mf..epos]`: a mantissa without its
/// point.
pub fn mantissa_digits(u: &Vec<char>, p1: usize, me: usize, mf: usize, epos: usize) -> (ds: Vec<char>)
    requires
        p1 <= me <= mf <= epos <= u.len(),
        all_digits(crate::decimal::span(u@, p1, me)),
        all_digits(crate::decimal::span(u@, mf, epos)),
    ensures
        ds@ == crate::decimal::span(u@, p1, me) + crate::decimal::span(u@, mf, epos),
        all_digits(ds@),
{
    let ghost w = crate::decimal::span(u@, p1, me);
    let ghost f = crate::decimal::span(u@, mf, epos);
    let mut ds: Vec<char> = Vec::new();
    let mut i = p1;
    while i < me
        invariant
            p1 <= i <= me <= mf <= epos <= u.len(),
            ds@ == crate::decimal::span(u@, p1, i),
        decreases me - i,
    {
        ds.push(u[i]);
        assert(crate::decimal::span(u@, p1, (i + 1) as usize) =~= crate::decimal::span(u@, p1, i).push(u@[i as int]));
        i = i + 1;
    }
    let mut i = mf;
    while i < epos
        invariant
            p1 <= me <= mf <= i <= epos <= u.len(),
            ds@ == crate::decimal::span(u@, p1, me) + crate::decimal::span(u@, mf, i),
        decreases epos - i,
    {
        ds.push(u[i]);
        assert(crate::decimal::span(u@, mf, (i + 1) as usize) =~= crate::decimal::span(u@, mf, i).push(u@[i as int]));
        assert(crate::decimal::span(u@, p1, me) + crate::decimal::span(u@, mf, (i + 1) as usize) =~= (
        crate::decimal::span(u@, p1, me) + crate::decimal::span(u@, mf, i)).push(u@[i as int]));
        i = i + 1;
    }
    proof {
        assert(all_digits(ds@)) by {
            assert forall|j: int| 0 <= j < ds@.len() implies #[trigger] is_digit(ds@[j]) by {
                if j < w.len() {
                    assert(ds@[j] == w[j]);
                } else {
                    assert(ds@[j] == f[j - w.len()]);
                }
            }
        }
    }
    ds
}

} // verus!
