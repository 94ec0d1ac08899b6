//! Binary floating-point arithmetic as IEEE 754 doubles do it (round to
//! nearest, ties to even), computed exactly with integers. A value is a pair
//! `(m, e)` standing for `m * 2^e`; a normal one has `2^52 <= m < 2^53`,
//! and `(0, 0)` is zero. Only values far from both ends of the double range
//! occur here, so neither subnormals nor overflow arise.
use crate::decimal::div_round_even;
use crate::size::pow2;
use vstd::arithmetic::div_mod::*;
use vstd::prelude::*;

verus! {

/// How many binary digits `n` has.
pub open spec fn bit_len(n: nat) -> nat
    decreases n,
{
    if n == 0 {
        0
    } else {
        1 + bit_len(n / 2)
    }
}

/// Whether `x` is zero or has a 53-bit mantissa.
pub open spec fn is_normal(x: (nat, int)) -> bool {
    (x.0 == 0 && x.1 == 0) || (pow2(52) <= x.0 < pow2(53))
}

/// The double nearest to `n * 2^e`, ties going to the even mantissa.
pub open spec fn nearest(n: nat, e: int) -> (nat, int) {
    let l = bit_len(n);
    if n == 0 {
        (0, 0)
    } else if l >= 53 {
        let k = (l - 53) as nat;
        let m = div_round_even(n, pow2(k));
        if m == pow2(53) {
            (pow2(52), e + k + 1)
        } else {
            (m, e + k)
        }
    } else {
        let k = (53 - l) as nat;
        (n * pow2(k), e - k)
    }
}

/// The double nearest to the product.
pub open spec fn dmul(x: (nat, int), y: (nat, int)) -> (nat, int) {
    nearest(x.0 * y.0, x.1 + y.1)
}

/// The double nearest to the sum.
pub open spec fn dadd(x: (nat, int), y: (nat, int)) -> (nat, int) {
    if x.0 == 0 {
        y
    } else if y.0 == 0 {
        x
    } else {
        let e = if x.1 <= y.1 {
            x.1
        } else {
            y.1
        };
        nearest(x.0 * pow2((x.1 - e) as nat) + y.0 * pow2((y.1 - e) as nat), e)
    }
}

/// The double nearest to the quotient of two normal, non-zero values: their
/// mantissas' quotient, scaled into `[2^52, 2^53)`, rounded.
pub open spec fn ddiv(x: (nat, int), y: (nat, int)) -> (nat, int) {
    let r: nat = if x.0 >= y.0 {
        0
    } else {
        1
    };
    let m = div_round_even(x.0 * pow2(52 + r), y.0);
    if m == pow2(53) {
        (pow2(52), x.1 - y.1 - 52 - r + 1)
    } else {
        (m, x.1 - y.1 - 52 - r)
    }
}

/// A non-negative value rounded to the nearest integer, halves away from
/// zero, and kept to `u64` (larger values giving `u64::MAX`).
pub open spec fn round_to_u64(x: (nat, int)) -> nat {
    let v = if x.1 >= 0 {
        x.0 * pow2(x.1 as nat)
    } else {
        let d = pow2((-x.1) as nat);
        if 2 * (x.0 % d) >= d {
            x.0 / d + 1
        } else {
            x.0 / d
        }
    };
    if v > 0xFFFF_FFFF_FFFF_FFFF {
        0xFFFF_FFFF_FFFF_FFFF
    } else {
        v
    }
}

// ── powers of two and lengths ───────────────────────────────────
pub proof fn lemma_pow2_positive(a: nat)
    ensures
        pow2(a) > 0,
    decreases a,
{
    if a > 0 {
        lemma_pow2_positive((a - 1) as nat);
    }
}

pub proof fn lemma_pow2_add(a: nat, b: nat)
    ensures
        pow2(a + b) == pow2(a) * pow2(b),
    decreases a,
{
    if a > 0 {
        lemma_pow2_add((a - 1) as nat, b);
        assert(pow2(a + b) == 2 * pow2((a - 1 + b) as nat));
        assert(pow2(a) == 2 * pow2((a - 1) as nat));
        assert(2 * (pow2((a - 1) as nat) * pow2(b)) == (2 * pow2((a - 1) as nat)) * pow2(b)) by (nonlinear_arith);
    } else {
        assert(pow2(0) == 1);
        assert(a + b == b);
    }
}

pub proof fn lemma_pow2_strict(a: nat, b: nat)
    requires
        a < b,
    ensures
        pow2(a) < pow2(b),
    decreases b,
{
    lemma_pow2_positive((b - 1) as nat);
    if a < b - 1 {
        lemma_pow2_strict(a, (b - 1) as nat);
    }
}

pub proof fn lemma_bit_len(n: nat)
    ensures
        n < pow2(bit_len(n)),
        n > 0 ==> pow2((bit_len(n) - 1) as nat) <= n,
    decreases n,
{
    if n > 0 {
        lemma_bit_len(n / 2);
        if n / 2 > 0 {
            assert(pow2((bit_len(n) - 1) as nat) == 2 * pow2((bit_len(n / 2) - 1) as nat));
        }
    }
}

/// `n` between `2^a` (included) and `2^b` (excluded) has between `a + 1`
/// and `b` digits.
pub proof fn lemma_bit_len_between(n: nat, a: nat, b: nat)
    requires
        pow2(a) <= n < pow2(b),
    ensures
        a + 1 <= bit_len(n) <= b,
{
    lemma_bit_len(n);
    lemma_pow2_positive(a);
    if bit_len(n) > b {
        lemma_pow2_strict(b, (bit_len(n) - 1) as nat);
        if bit_len(n) - 1 > b {
        }
    }
    if bit_len(n) < a + 1 {
        if bit_len(n) < a {
            lemma_pow2_strict(bit_len(n), a);
        }
    }
}

/// Bounds on a quotient from bounds on the dividend.
pub proof fn lemma_div_between(n: nat, d: nat, a: nat, b: nat)
    requires
        d > 0,
        a * d <= n,
        n < b * d,
    ensures
        a <= n / d < b,
{
    lemma_fundamental_div_mod(n as int, d as int);
    let q = n / d;
    let r = n % d;
    assert(n == d * q + r);
    assert(r < d);
    assert(a <= q) by (nonlinear_arith)
        requires
            a * d <= d * q + r,
            r < d,
            d > 0,
    ;
    assert(q < b) by (nonlinear_arith)
        requires
            d * q + r < b * d,
            d > 0,
    ;
}

/// A non-zero value rounds to a normal double, whose exponent follows from
/// the value's length.
pub proof fn lemma_nearest(n: nat, e: int)
    ensures
        is_normal(nearest(n, e)),
        n > 0 ==> pow2(52) <= nearest(n, e).0 < pow2(53),
        n > 0 ==> nearest(n, e).1 == e + bit_len(n) - 53 || nearest(n, e).1 == e + bit_len(n) - 52,
{
    if n > 0 {
        let l = bit_len(n);
        lemma_bit_len(n);
        lemma_pow2_strict(52, 53);
        if l >= 53 {
            let k = (l - 53) as nat;
            lemma_pow2_add(52, k);
            lemma_pow2_add(53, k);
            assert(52 + k == l - 1);
            assert(53 + k == l);
            lemma_pow2_positive(k);
            let q = n / pow2(k);
            lemma_div_between(n, pow2(k), pow2(52), pow2(53));
            let m = div_round_even(n, pow2(k));
            assert(q <= m <= q + 1);
        } else {
            let k = (53 - l) as nat;
            lemma_pow2_add((l - 1) as nat, k);
            lemma_pow2_add(l, k);
            assert((l - 1) as nat + k == 52);
            assert(l + k == 53);
            let p = pow2(k);
            lemma_pow2_positive(k);
            assert(pow2((l - 1) as nat) * p <= n * p) by (nonlinear_arith)
                requires
                    pow2((l - 1) as nat) <= n,
            ;
            assert(n * p < pow2(l) * p) by (nonlinear_arith)
                requires
                    n < pow2(l),
                    p > 0,
            ;
            lemma_pow2_positive(k);
        }
    }
}

pub proof fn lemma_pow2_values()
    ensures
        pow2(52) == 0x10_0000_0000_0000,
        pow2(53) == 0x20_0000_0000_0000,
        pow2(64) == 0x1_0000_0000_0000_0000,
        pow2(127) == 0x8000_0000_0000_0000_0000_0000_0000_0000,
{
    reveal_with_fuel(pow2, 54);
    assert(pow2(32) == 0x1_0000_0000);
    assert(pow2(52) == 0x10_0000_0000_0000);
    assert(pow2(53) == 0x20_0000_0000_0000);
    lemma_pow2_add(32, 32);
    assert(pow2(64) == 0x1_0000_0000_0000_0000);
    lemma_pow2_add(64, 63);
    lemma_pow2_add(32, 31);
    assert(pow2(31) == 0x8000_0000);
    assert(pow2(63) == 0x8000_0000_0000_0000);
    assert(pow2(127) == 0x8000_0000_0000_0000_0000_0000_0000_0000);
}

pub(crate) fn pow2_exec(k: u32) -> (r: u128)
    requires
        k <= 127,
    ensures
        r == pow2(k as nat),
{
    let mut r: u128 = 1;
    let mut i: u32 = 0;
    proof {
        lemma_pow2_values();
    }
    while i < k
        invariant
            i <= k <= 127,
            r == pow2(i as nat),
            pow2(127) == 0x8000_0000_0000_0000_0000_0000_0000_0000,
        decreases k - i,
    {
        proof {
            if i + 1 < 127 {
                lemma_pow2_strict((i + 1) as nat, 127);
            }
            assert(pow2((i + 1) as nat) == 2 * pow2(i as nat));
        }
        r = r * 2;
        i = i + 1;
    }
    r
}

pub(crate) fn bit_len_exec(n: u128) -> (l: u32)
    ensures
        l == bit_len(n as nat),
        l <= 128,
{
    proof {
        lemma_pow2_values();
        if n > 0 {
            assert(pow2(0) == 1);
            assert(pow2(128) == 2 * pow2(127));
            lemma_bit_len_between(n as nat, 0, 128);
        }
    }
    let mut t = n;
    let mut l: u32 = 0;
    while t > 0
        invariant
            bit_len(n as nat) == l + bit_len(t as nat),
            bit_len(n as nat) <= 128,
        decreases t,
    {
        t = t / 2;
        l = l + 1;
    }
    l
}

/// A value's double as a machine pair.
pub open spec fn pair_of(x: (u64, i32)) -> (nat, int) {
    (x.0 as nat, x.1 as int)
}

/// `n * 2^e` rounded to a double (see `nearest`).
pub fn nearest_exec(n: u128, e: i32) -> (r: (u64, i32))
    requires
        n < 0x8000_0000_0000_0000_0000_0000_0000_0000,
        -1000 <= e <= 1000,
    ensures
        pair_of(r) == nearest(n as nat, e as int),
{
    if n == 0 {
        return (0, 0);
    }
    proof {
        lemma_nearest(n as nat, e as int);
        lemma_pow2_values();
    }
    let l = bit_len_exec(n);
    if l >= 53 {
        let k = l - 53;
        let p = pow2_exec(k);
        proof {
            lemma_pow2_positive(k as nat);
            lemma_bit_len(n as nat);
            lemma_pow2_add(52, k as nat);
            lemma_pow2_add(53, k as nat);
            lemma_div_between(n as nat, p as nat, pow2(52), pow2(53));
        }
        let q = n / p;
        let rm = n % p;
        let m: u128 = if 2 * rm > p {
            q + 1
        } else if 2 * rm == p {
            q + q % 2
        } else {
            q
        };
        assert(m == div_round_even(n as nat, pow2(k as nat)));
        if m == 0x20_0000_0000_0000 {
            (0x10_0000_0000_0000, e + k as i32 + 1)
        } else {
            (m as u64, e + k as i32)
        }
    } else {
        let k = 53 - l;
        let p = pow2_exec(k);
        proof {
            lemma_bit_len(n as nat);
            lemma_pow2_add(l as nat, k as nat);
            lemma_pow2_positive(k as nat);
            assert((n as nat) * (p as nat) < pow2(l as nat) * (p as nat)) by (nonlinear_arith)
                requires
                    (n as nat) < pow2(l as nat),
                    (p as nat) > 0,
            ;
        }
        ((n * p) as u64, e - k as i32)
    }
}

/// The product of two normal non-zero doubles is normal, its exponent
/// 52 to 54 above the sum of theirs.
pub proof fn lemma_dmul(x: (nat, int), y: (nat, int))
    requires
        is_normal(x),
        is_normal(y),
    ensures
        is_normal(dmul(x, y)),
        x.0 > 0 && y.0 > 0 ==> dmul(x, y).0 > 0 && x.1 + y.1 + 52 <= dmul(x, y).1 <= x.1 + y.1 + 54,
        x.0 == 0 || y.0 == 0 ==> dmul(x, y) == (0nat, 0int),
{
    lemma_nearest(x.0 * y.0, x.1 + y.1);
    if x.0 > 0 && y.0 > 0 {
        lemma_pow2_add(52, 52);
        lemma_pow2_add(53, 53);
        assert(pow2(52) * pow2(52) <= x.0 * y.0) by (nonlinear_arith)
            requires
                pow2(52) <= x.0,
                pow2(52) <= y.0,
        ;
        assert(x.0 * y.0 < pow2(53) * pow2(53)) by (nonlinear_arith)
            requires
                x.0 < pow2(53),
                y.0 < pow2(53),
        ;
        lemma_bit_len_between(x.0 * y.0, 104, 106);
        lemma_pow2_values();
    } else {
        assert(x.0 * y.0 == 0) by (nonlinear_arith)
            requires
                x.0 == 0 || y.0 == 0,
        ;
    }
}

/// The sum of two normal non-zero doubles is normal, its exponent 0 to 2
/// above the larger of theirs.
pub proof fn lemma_dadd(x: (nat, int), y: (nat, int))
    requires
        is_normal(x),
        is_normal(y),
        x.0 > 0,
        y.0 > 0,
    ensures
        is_normal(dadd(x, y)),
        dadd(x, y).0 > 0,
        (if x.1 >= y.1 { x.1 } else { y.1 }) <= dadd(x, y).1 <= (if x.1 >= y.1 { x.1 } else { y.1 }) + 2,
{
    let e = if x.1 <= y.1 {
        x.1
    } else {
        y.1
    };
    let big = if x.1 >= y.1 {
        x.1
    } else {
        y.1
    };
    let d = (big - e) as nat;
    let px = pow2((x.1 - e) as nat);
    let py = pow2((y.1 - e) as nat);
    let s = x.0 * px + y.0 * py;
    lemma_pow2_positive((x.1 - e) as nat);
    lemma_pow2_positive((y.1 - e) as nat);
    lemma_pow2_add(52, d);
    lemma_pow2_add(53, d);
    lemma_pow2_add(54, d);
    assert(pow2(54) == 2 * pow2(53));
    if x.1 >= y.1 {
        assert(py == 1) by {
            assert(y.1 - e == 0);
        }
        assert(px == pow2(d));
        assert(pow2(52) * px <= x.0 * px) by (nonlinear_arith)
            requires
                pow2(52) <= x.0,
        ;
        assert(x.0 * px < pow2(53) * px) by (nonlinear_arith)
            requires
                x.0 < pow2(53),
                px > 0,
        ;
        if d > 0 {
            lemma_pow2_strict(53, 53 + d);
        }
        assert(y.0 <= pow2(53) * px);
    } else {
        assert(px == 1) by {
            assert(x.1 - e == 0);
        }
        assert(py == pow2(d));
        assert(pow2(52) * py <= y.0 * py) by (nonlinear_arith)
            requires
                pow2(52) <= y.0,
        ;
        assert(y.0 * py < pow2(53) * py) by (nonlinear_arith)
            requires
                y.0 < pow2(53),
                py > 0,
        ;
        lemma_pow2_strict(53, 53 + d);
        assert(x.0 <= pow2(53) * py);
    }
    assert(pow2(54) * pow2(d) == 2 * (pow2(53) * pow2(d))) by (nonlinear_arith)
        requires
            pow2(54) == 2 * pow2(53),
    ;
    assert(pow2(54 + d) == 2 * pow2(53 + d));
    if d > 0 {
        lemma_pow2_strict(53, 53 + d);
    }
    assert(pow2(53) <= pow2(53 + d));
    assert(x.0 * px < pow2(53 + d)) by {
        if x.1 >= y.1 {
        } else {
            assert(x.1 - e == 0);
            assert(pow2(0) == 1);
            assert(px == 1);
            assert(x.0 * px == x.0) by (nonlinear_arith)
                requires
                    px == 1,
            ;
        }
    }
    assert(y.0 * py < pow2(53 + d)) by {
        if x.1 >= y.1 {
            assert(y.1 - e == 0);
            assert(pow2(0) == 1);
            assert(py == 1);
            assert(y.0 * py == y.0) by (nonlinear_arith)
                requires
                    py == 1,
            ;
        } else {
        }
    }
    assert(pow2(52 + d) <= s);
    assert(s < pow2(54 + d));
    lemma_bit_len_between(s, 52 + d, 54 + d);
    lemma_nearest(s, e);
    lemma_pow2_values();
}

/// The quotient of two normal non-zero doubles is normal, its exponent 51
/// to 53 below the difference of theirs.
pub proof fn lemma_ddiv(x: (nat, int), y: (nat, int))
    requires
        is_normal(x),
        is_normal(y),
        x.0 > 0,
        y.0 > 0,
    ensures
        is_normal(ddiv(x, y)),
        ddiv(x, y).0 > 0,
        x.1 - y.1 - 53 <= ddiv(x, y).1 <= x.1 - y.1 - 51,
{
    let r: nat = if x.0 >= y.0 {
        0
    } else {
        1
    };
    let num = x.0 * pow2(52 + r);
    lemma_pow2_add(52, r);
    lemma_pow2_add(53, r);
    lemma_pow2_values();
    lemma_pow2_positive(52 + r);
    if r == 0 {
        assert(pow2(52) * y.0 <= num) by (nonlinear_arith)
            requires
                y.0 <= x.0,
                num == x.0 * pow2(52),
        ;
        assert(num < pow2(53) * y.0) by (nonlinear_arith)
            requires
                x.0 < pow2(53),
                pow2(52) <= y.0,
                num == x.0 * pow2(52),
                pow2(53) == 2 * pow2(52),
        ;
    } else {
        assert(pow2(52) * y.0 <= num) by (nonlinear_arith)
            requires
                pow2(52) <= x.0,
                y.0 < pow2(53),
                num == x.0 * pow2(53),
                pow2(53) == 2 * pow2(52),
        ;
        assert(num < pow2(53) * y.0) by (nonlinear_arith)
            requires
                x.0 < y.0,
                num == x.0 * pow2(53),
                pow2(53) > 0,
        ;
    }
    lemma_div_between(num, y.0, pow2(52), pow2(53));
}

/// The product of two doubles (see `dmul`).
pub fn dmul_exec(x: (u64, i32), y: (u64, i32)) -> (r: (u64, i32))
    requires
        is_normal(pair_of(x)),
        is_normal(pair_of(y)),
        -400 <= x.1 <= 400,
        -400 <= y.1 <= 400,
    ensures
        pair_of(r) == dmul(pair_of(x), pair_of(y)),
{
    proof {
        lemma_pow2_values();
        assert((x.0 as nat) * (y.0 as nat) < 0x8000_0000_0000_0000_0000_0000_0000_0000) by (nonlinear_arith)
            requires
                x.0 < 0x20_0000_0000_0000,
                y.0 < 0x20_0000_0000_0000,
        ;
    }
    nearest_exec((x.0 as u128) * (y.0 as u128), x.1 + y.1)
}

/// The sum of two doubles (see `dadd`), whose exponents are at most 70
/// apart.
pub fn dadd_exec(x: (u64, i32), y: (u64, i32)) -> (r: (u64, i32))
    requires
        is_normal(pair_of(x)),
        is_normal(pair_of(y)),
        -400 <= x.1 <= 400,
        -400 <= y.1 <= 400,
        -70 <= x.1 - y.1 <= 70,
    ensures
        pair_of(r) == dadd(pair_of(x), pair_of(y)),
{
    if x.0 == 0 {
        return y;
    }
    if y.0 == 0 {
        return x;
    }
    let e = if x.1 <= y.1 {
        x.1
    } else {
        y.1
    };
    let px = pow2_exec((x.1 - e) as u32);
    let py = pow2_exec((y.1 - e) as u32);
    proof {
        lemma_pow2_values();
        lemma_pow2_add(53, 70);
        if x.1 - e < 70 {
            lemma_pow2_strict((x.1 - e) as nat, 70);
        }
        if y.1 - e < 70 {
            lemma_pow2_strict((y.1 - e) as nat, 70);
        }
        assert(pow2(70) == 0x40_0000_0000_0000_0000) by {
            lemma_pow2_add(64, 6);
            reveal_with_fuel(pow2, 7);
        }
        assert((x.0 as nat) * (px as nat) <= 0x20_0000_0000_0000 * 0x40_0000_0000_0000_0000) by (nonlinear_arith)
            requires
                x.0 < 0x20_0000_0000_0000,
                px <= 0x40_0000_0000_0000_0000,
        ;
        assert((y.0 as nat) * (py as nat) <= 0x20_0000_0000_0000 * 0x40_0000_0000_0000_0000) by (nonlinear_arith)
            requires
                y.0 < 0x20_0000_0000_0000,
                py <= 0x40_0000_0000_0000_0000,
        ;
    }
    let s = (x.0 as u128) * px + (y.0 as u128) * py;
    nearest_exec(s, e)
}

/// The quotient of two normal non-zero doubles (see `ddiv`).
pub fn ddiv_exec(x: (u64, i32), y: (u64, i32)) -> (r: (u64, i32))
    requires
        is_normal(pair_of(x)),
        is_normal(pair_of(y)),
        x.0 > 0,
        y.0 > 0,
        -400 <= x.1 <= 400,
        -400 <= y.1 <= 400,
    ensures
        pair_of(r) == ddiv(pair_of(x), pair_of(y)),
{
    proof {
        lemma_pow2_values();
        lemma_ddiv(pair_of(x), pair_of(y));
    }
    let r: u32 = if x.0 >= y.0 {
        0
    } else {
        1
    };
    let p = pow2_exec(52 + r);
    proof {
        lemma_pow2_add(53, 53);
        if r == 0 {
            lemma_pow2_strict(52, 53);
        }
        assert((x.0 as nat) * (p as nat) <= 0x20_0000_0000_0000 * 0x20_0000_0000_0000) by (nonlinear_arith)
            requires
                x.0 < 0x20_0000_0000_0000,
                p <= 0x20_0000_0000_0000,
        ;
    }
    let num = (x.0 as u128) * p;
    let d = y.0 as u128;
    let q = num / d;
    let rm = num % d;
    let m: u128 = if 2 * rm > d {
        q + 1
    } else if 2 * rm == d {
        q + q % 2
    } else {
        q
    };
    assert(m == div_round_even((x.0 as nat) * pow2((52 + r) as nat), y.0 as nat));
    if m == 0x20_0000_0000_0000 {
        (0x10_0000_0000_0000, x.1 - y.1 - 52 - r as i32 + 1)
    } else {
        (m as u64, x.1 - y.1 - 52 - r as i32)
    }
}

/// A non-negative double rounded to a `u64` (see `round_to_u64`).
pub fn round_to_u64_exec(x: (u64, i32)) -> (r: u64)
    requires
        is_normal(pair_of(x)),
        -400 <= x.1 <= 400,
    ensures
        r == round_to_u64(pair_of(x)),
{
    proof {
        lemma_pow2_values();
    }
    if x.1 >= 0 {
        if x.1 >= 12 {
            proof {
                lemma_pow2_add(52, 12);
                if x.1 > 12 {
                    lemma_pow2_strict(12, x.1 as nat);
                }
                assert(pow2(12) == 4096) by {
                    reveal_with_fuel(pow2, 13);
                }
                assert((x.0 as nat) * pow2(x.1 as nat) >= pow2(52) * pow2(12)) by (nonlinear_arith)
                    requires
                        x.0 >= pow2(52),
                        pow2(x.1 as nat) >= pow2(12),
                ;
            }
            return 0xFFFF_FFFF_FFFF_FFFF;
        }
        let p = pow2_exec(x.1 as u32);
        proof {
            if x.1 < 11 {
                lemma_pow2_strict(x.1 as nat, 11);
            }
            assert(pow2(11) == 2048) by {
                reveal_with_fuel(pow2, 12);
            }
            assert((x.0 as nat) * (p as nat) <= 0x20_0000_0000_0000 * 2048) by (nonlinear_arith)
                requires
                    x.0 < 0x20_0000_0000_0000,
                    p <= 2048,
            ;
        }
        let v = (x.0 as u128) * p;
        if v > 0xFFFF_FFFF_FFFF_FFFF {
            0xFFFF_FFFF_FFFF_FFFF
        } else {
            v as u64
        }
    } else {
        let k = (-x.1) as u32;
        if k >= 64 {
            proof {
                if k > 64 {
                    lemma_pow2_strict(64, k as nat);
                }
                lemma_pow2_strict(53, 64);
                let d = pow2(k as nat);
                assert((x.0 as nat) < d);
                assert((x.0 as nat) / d == 0 && (x.0 as nat) % d == x.0) by {
                    lemma_pow2_positive(k as nat);
                    lemma_basic_div_specific_divisor(d as int);
                    lemma_small_mod(x.0 as nat, d);
                }
            }
            return 0;
        }
        let d = pow2_exec(k);
        proof {
            lemma_pow2_positive(k as nat);
            if k < 64 {
                lemma_pow2_strict(k as nat, 64);
            }
        }
        let q = (x.0 as u128) / d;
        let rm = (x.0 as u128) % d;
        let v = if 2 * rm >= d {
            q + 1
        } else {
            q
        };
        proof {
            assert(q <= x.0) by {
                lemma_div_is_ordered_by_denominator(x.0 as int, 1, d as int);
            }
        }
        v as u64
    }
}

} // verus!
