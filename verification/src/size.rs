//! Byte sizes: reading `10MB`, `1.5GB` or `500KB`, and writing `1.5 KB`.
use crate::decimal::{
    all_digits, digits_value, digits_value_capped, div_round_even, find_char, first_index_of, is_digit,
    lemma_digits_value_bound, lemma_first_index_of, lemma_pow10_monotone, lemma_pow10_positive,
    min_nat, pow10, span, split_mantissa, split_mantissa_range,
};
use crate::binary::{lemma_pow2_add, lemma_pow2_strict, lemma_pow2_values};
use crate::ratio::nearest_ratio;
use crate::reading::{
    decimal_ratio, lemma_double_large, lemma_double_range, lemma_double_small, mantissa_digits, read_decimal,
    reading_of, Reading,
};
use crate::scaled::{cap64, lemma_pow10_20};
use crate::text::{
    decimal_text, digit_char, digit_to_char, push_decimal, string_of,
    chars_of, range_is, string_of_range, to_uppercase, trim, trim_bounds, uppercase_of,
};
use vstd::prelude::*;

verus! {

/// Why a size text was refused.
#[derive(Debug, Clone, Copy, PartialEq, Eq)]
pub enum SizeError {
    /// Nothing is left once the unit is taken off.
    Empty,
    /// What is left is not a number.
    InvalidNumber,
}

/// The kinds of number that std's `f64` parser reads.
#[derive(Debug, Clone, Copy, PartialEq, Eq)]
pub enum NumberKind {
    Infinite,
    NotANumber,
    Finite,
}

pub open spec fn ends_with(s: Seq<char>, suffix: Seq<char>) -> bool {
    s.len() >= suffix.len() && s.skip(s.len() - suffix.len()) == suffix
}

/// An optional sign at the start of `t`: whether it is `-`, and the rest.
pub open spec fn sign_split(t: Seq<char>) -> (bool, Seq<char>) {
    if t.len() > 0 && t[0] == '-' {
        (true, t.drop_first())
    } else if t.len() > 0 && t[0] == '+' {
        (false, t.drop_first())
    } else {
        (false, t)
    }
}

/// An exponent: an optional sign and at least one digit; its sign and magnitude.
pub open spec fn exponent_parts(x: Seq<char>) -> Option<(bool, nat)> {
    let (neg, d) = sign_split(x);
    if d.len() > 0 && all_digits(d) {
        Some((neg, digits_value(d)))
    } else {
        None
    }
}

/// A number as std's `f64` parser reads it, in upper case: an optional sign,
/// then `INF`, `INFINITY`, `NAN`, or a mantissa with an optional `E` exponent.
/// Gives the sign, the kind, the digits before and after the point, and the
/// exponent.
pub open spec fn number_text(t: Seq<char>) -> Option<(bool, NumberKind, Seq<char>, Seq<char>, int)> {
    let (neg, u) = sign_split(t);
    if u == seq!['I', 'N', 'F'] || u == seq!['I', 'N', 'F', 'I', 'N', 'I', 'T', 'Y'] {
        Some((neg, NumberKind::Infinite, Seq::<char>::empty(), Seq::<char>::empty(), 0))
    } else if u == seq!['N', 'A', 'N'] {
        Some((neg, NumberKind::NotANumber, Seq::<char>::empty(), Seq::<char>::empty(), 0))
    } else {
        match first_index_of(u, 'E') {
            None => match split_mantissa(u) {
                Some((w, f)) => Some((neg, NumberKind::Finite, w, f, 0)),
                None => None,
            },
            Some(i) => match (split_mantissa(u.take(i as int)), exponent_parts(u.skip(i as int + 1))) {
                (Some((w, f)), Some((eneg, m))) => Some(
                    (neg, NumberKind::Finite, w, f, if eneg {
                        -(m as int)
                    } else {
                        m as int
                    }),
                ),
                _ => None,
            },
        }
    }
}

pub open spec fn u64_max() -> nat {
    0xFFFF_FFFF_FFFF_FFFF
}

/// A double `x` times `mult`, rounded toward zero.
pub open spec fn floor_times(x: (nat, int), mult: nat) -> nat {
    if x.1 >= 0 {
        x.0 * pow2(x.1 as nat) * mult
    } else {
        (x.0 * mult) / pow2((-x.1) as nat)
    }
}

/// The number whose digits have the value `v` and whose decimal exponent is
/// `x`, read as the nearest double, times `mult`, rounded toward zero and
/// kept to a `u64` (larger values giving `u64::MAX`).
pub open spec fn decimal_times(v: nat, x: int, mult: nat) -> nat {
    let (n, d) = decimal_ratio(v, x);
    min_nat(floor_times(nearest_ratio(n, d), mult), u64_max())
}

/// `n * mult` as a `u64`, `n` read as std's `f64` parser reads it (the
/// double nearest to the number; beyond the range of doubles the results
/// are the same): rounded toward zero, negatives and NaN giving 0, overflow
/// and infinity giving `u64::MAX`.
pub open spec fn number_times(n: (bool, NumberKind, Seq<char>, Seq<char>, int), mult: nat) -> nat {
    let (neg, kind, w, f, e) = n;
    match kind {
        NumberKind::Infinite => if neg {
            0
        } else {
            u64_max()
        },
        NumberKind::NotANumber => 0,
        NumberKind::Finite => if neg {
            0
        } else {
            decimal_times(digits_value(w + f), e - f.len(), mult)
        },
    }
}

/// The unit at the end of an upper-case size text: the rest and the bytes per unit.
pub open spec fn unit_split(c: Seq<char>) -> (Seq<char>, nat) {
    if ends_with(c, seq!['T', 'B']) {
        (c.take(c.len() - 2), 0x100_0000_0000)
    } else if ends_with(c, seq!['G', 'B']) {
        (c.take(c.len() - 2), 0x4000_0000)
    } else if ends_with(c, seq!['M', 'B']) {
        (c.take(c.len() - 2), 0x10_0000)
    } else if ends_with(c, seq!['K', 'B']) {
        (c.take(c.len() - 2), 0x400)
    } else if ends_with(c, seq!['B']) {
        (c.take(c.len() - 1), 1)
    } else {
        (c, 1)
    }
}

/// What `parse_size` gives for `s`: the size read from the text trimmed and
/// in upper case.
pub open spec fn size_of_text(s: Seq<char>) -> Result<nat, SizeError> {
    size_of_clean(uppercase_of(trim(s)))
}

/// The size written in `c` (already trimmed and in upper case): a number
/// and an optional unit `B`, `KB`, `MB`, `GB` or `TB` (powers of 1024).
pub open spec fn size_of_clean(c: Seq<char>) -> Result<nat, SizeError> {
    let (num, mult) = unit_split(c);
    let t = trim(num);
    if t.len() == 0 {
        Err(SizeError::Empty)
    } else {
        match number_text(t) {
            None => Err(SizeError::InvalidNumber),
            Some(n) => Ok(number_times(n, mult)),
        }
    }
}

pub open spec fn size_result_nat(r: Result<u64, SizeError>) -> Result<nat, SizeError> {
    match r {
        Ok(n) => Ok(n as nat),
        Err(e) => Err(e),
    }
}

/// The sign of `v[lo..hi]`, and where the rest starts.
fn sign_range(v: &Vec<char>, lo: usize, hi: usize) -> (r: (bool, usize))
    requires
        lo <= hi <= v.len(),
    ensures
        lo <= r.1 <= hi,
        sign_split(span(v@, lo, hi)) == (r.0, span(v@, r.1, hi)),
{
    if lo < hi && v[lo] == '-' {
        assert(span(v@, lo, hi).drop_first() =~= span(v@, (lo + 1) as usize, hi));
        (true, lo + 1)
    } else if lo < hi && v[lo] == '+' {
        assert(span(v@, lo, hi).drop_first() =~= span(v@, (lo + 1) as usize, hi));
        (false, lo + 1)
    } else {
        (false, lo)
    }
}

const EXPONENT_CAP: u128 = 0x10_0000_0000_0000_0000_0000_0000u128;

/// The exponent `v[lo..hi]`: its sign and its magnitude, capped at `2^100`.
fn exponent_range(v: &Vec<char>, lo: usize, hi: usize) -> (r: Option<(bool, u128)>)
    requires
        lo <= hi <= v.len(),
    ensures
        match r {
            None => exponent_parts(span(v@, lo, hi)) is None,
            Some((neg, em)) => exists|m: nat|
                {
                    &&& exponent_parts(span(v@, lo, hi)) == Some((neg, m))
                    &&& em == min_nat(m, EXPONENT_CAP as nat)
                },
        },
{
    let (neg, s) = sign_range(v, lo, hi);
    if s == hi {
        return None;
    }
    let mut i = s;
    while i < hi
        invariant
            lo <= s <= i <= hi <= v.len(),
            sign_split(span(v@, lo, hi)) == (neg, span(v@, s, hi)),
            forall|j: int| s <= j < i ==> is_digit(#[trigger] v@[j]),
        decreases hi - i,
    {
        let x = v[i] as u32;
        if x < '0' as u32 || x > '9' as u32 {
            proof {
                assert(span(v@, s, hi)[i - s] == v@[i as int]);
                assert(!is_digit(span(v@, s, hi)[i - s]));
            }
            return None;
        }
        i = i + 1;
    }
    proof {
        assert(all_digits(span(v@, s, hi))) by {
            assert forall|j: int| 0 <= j < span(v@, s, hi).len() implies #[trigger] is_digit(
                span(v@, s, hi)[j],
            ) by {
                assert(span(v@, s, hi)[j] == v@[s + j]);
            }
        }
    }
    let em = digits_value_capped(v, s, hi, EXPONENT_CAP);
    Some((neg, em))
}

proof fn lemma_pow2_40()
    ensures
        pow2(40) == 0x100_0000_0000,
{
    reveal_with_fuel(pow2, 41);
}

/// Far enough from zero, the exponent no longer changes a capped result.
proof fn lemma_far_equal(v: nat, len: nat, x1: int, x2: int, mult: nat)
    requires
        v < pow10(len),
        1 <= mult <= 0x100_0000_0000,
        (x1 >= 20 && x2 >= 20) || (x1 <= -(len + 19) && x2 <= -(len + 19)),
    ensures
        decimal_times(v, x1, mult) == decimal_times(v, x2, mult),
{
    lemma_far_value(v, len, x1, mult);
    lemma_far_value(v, len, x2, mult);
}

/// What a number far from one gives: `u64::MAX` when large, 0 when small.
proof fn lemma_far_value(v: nat, len: nat, x: int, mult: nat)
    requires
        v < pow10(len),
        1 <= mult <= 0x100_0000_0000,
        x >= 20 || x <= -(len + 19),
    ensures
        decimal_times(v, x, mult) == (if v > 0 && x >= 20 {
            u64_max()
        } else {
            0
        }),
{
    let (n, d) = decimal_ratio(v, x);
    lemma_pow2_values();
    if v == 0 {
        if x >= 0 {
            assert(0 * pow10(x as nat) == 0);
        }
        assert(floor_times((0nat, 0int), mult) == 0) by {
            assert(0 * pow2(0) * mult == 0) by (nonlinear_arith);
        }
    } else if x >= 20 {
        lemma_pow10_20();
        lemma_pow10_monotone(20, x as nat);
        assert(n >= 1 * pow2(64)) by (nonlinear_arith)
            requires
                n == v * pow10(x as nat),
                v >= 1,
                pow10(x as nat) >= pow10(20),
                pow10(20) >= pow2(64),
        ;
        lemma_double_large(n, d);
        let y = nearest_ratio(n, d);
        let c = (y.1 - 12) as nat;
        lemma_pow2_add(12, c);
        lemma_pow2_add(52, 12);
        lemma_pow2_positive(c);
        assert(y.0 * pow2(y.1 as nat) * mult >= pow2(52) * pow2(12)) by (nonlinear_arith)
            requires
                y.0 >= pow2(52),
                pow2(y.1 as nat) == pow2(12) * pow2(c),
                pow2(c) >= 1,
                mult >= 1,
        ;
    } else {
        let z = (-x) as nat;
        crate::decimal::lemma_pow10_add(len, 19);
        lemma_pow10_monotone(len + 19, z);
        lemma_pow10_20();
        assert(pow10(20) == 10 * pow10(19));
        lemma_pow2_add(60, 4);
        reveal_with_fuel(pow2, 5);
        assert(v * pow2(60) < d) by (nonlinear_arith)
            requires
                v < pow10(len),
                pow2(60) < pow10(19),
                pow10(len + 19) == pow10(len) * pow10(19),
                d >= pow10(len + 19),
        ;
        lemma_double_small(n, d);
        let y = nearest_ratio(n, d);
        let c = (-y.1) as nat;
        lemma_pow2_add(93, (c - 93) as nat);
        lemma_pow2_add(53, 40);
        lemma_pow2_40();
        lemma_pow2_positive((c - 93) as nat);
        assert(y.0 * mult < pow2(93)) by (nonlinear_arith)
            requires
                y.0 < pow2(53),
                mult <= 0x100_0000_0000,
                pow2(93) == pow2(53) * 0x100_0000_0000,
        ;
        assert(pow2(93) <= pow2(c)) by (nonlinear_arith)
            requires
                pow2(c) == pow2(93) * pow2((c - 93) as nat),
                pow2((c - 93) as nat) >= 1,
        ;
        vstd::arithmetic::div_mod::lemma_basic_div((y.0 * mult) as int, pow2(c) as int);
    }
}

/// The reading `rd` of a number times `mult`, rounded toward zero and kept
/// to a `u64`.
fn times_reading(rd: Reading, mult: u64, Ghost(n): Ghost<nat>, Ghost(d): Ghost<nat>) -> (r: u64)
    requires
        d > 0,
        reading_of(rd, n, d),
        1 <= mult <= 0x100_0000_0000,
    ensures
        r as nat == min_nat(floor_times(nearest_ratio(n, d), mult as nat), u64_max()),
{
    proof {
        lemma_pow2_values();
        lemma_pow2_add(53, 40);
        lemma_pow2_add(52, 12);
        lemma_pow2_40();
    }
    match rd {
        Reading::Zero => {
            assert(floor_times((0nat, 0int), mult as nat) == 0) by {
                assert(0 * pow2(0) * mult == 0) by (nonlinear_arith);
            }
            0
        },
        Reading::Small => {
            proof {
                lemma_double_small(n, d);
                let y = nearest_ratio(n, d);
                let c = (-y.1) as nat;
                lemma_pow2_add(93, (c - 93) as nat);
                lemma_pow2_positive((c - 93) as nat);
                assert(y.0 * mult < pow2(93)) by (nonlinear_arith)
                    requires
                        y.0 < pow2(53),
                        mult <= 0x100_0000_0000,
                        pow2(93) == pow2(53) * 0x100_0000_0000,
                ;
                assert(pow2(93) <= pow2(c)) by (nonlinear_arith)
                    requires
                        pow2(c) == pow2(93) * pow2((c - 93) as nat),
                        pow2((c - 93) as nat) >= 1,
                ;
                vstd::arithmetic::div_mod::lemma_basic_div((y.0 * mult) as int, pow2(c) as int);
            }
            0
        },
        Reading::Large => {
            proof {
                lemma_double_large(n, d);
                let y = nearest_ratio(n, d);
                let c = (y.1 - 12) as nat;
                lemma_pow2_add(12, c);
                lemma_pow2_positive(c);
                assert(y.0 * pow2(y.1 as nat) * mult >= pow2(52) * pow2(12)) by (nonlinear_arith)
                    requires
                        y.0 >= pow2(52),
                        pow2(y.1 as nat) == pow2(12) * pow2(c),
                        pow2(c) >= 1,
                        mult >= 1,
                ;
            }
            0xFFFF_FFFF_FFFF_FFFF
        },
        Reading::Double(m, e) => {
            proof {
                lemma_double_range(n, d);
            }
            if e >= 0 {
                let p = crate::binary::pow2_exec(e as u32);
                proof {
                    lemma_pow2_positive(e as nat);
                    if e < 12 {
                        lemma_pow2_strict(e as nat, 12);
                    }
                    assert(pow2(12) == 4096) by {
                        reveal_with_fuel(pow2, 13);
                    }
                    assert((m as nat) * (p as nat) <= pow2(53) * 4096) by (nonlinear_arith)
                        requires
                            m < pow2(53),
                            p <= 4096,
                    ;
                    assert((m as nat) * (p as nat) * (mult as nat) <= pow2(53) * 4096 * 0x100_0000_0000) by (nonlinear_arith)
                        requires
                            m < pow2(53),
                            p <= 4096,
                            mult <= 0x100_0000_0000,
                    ;
                }
                let v: u128 = m as u128 * p * mult as u128;
                if v > 0xFFFF_FFFF_FFFF_FFFF {
                    0xFFFF_FFFF_FFFF_FFFF
                } else {
                    v as u64
                }
            } else {
                let p = crate::binary::pow2_exec((-e) as u32);
                proof {
                    lemma_pow2_positive((-e) as nat);
                    assert((m as nat) * (mult as nat) < pow2(93)) by (nonlinear_arith)
                        requires
                            m < pow2(53),
                            mult <= 0x100_0000_0000,
                            pow2(93) == pow2(53) * 0x100_0000_0000,
                    ;
                    assert(pow2(93) < 0x1_0000_0000_0000_0000_0000_0000_0000_0000) by {
                        lemma_pow2_strict(93, 127);
                    }
                }
                let v: u128 = (m as u128 * mult as u128) / p;
                if v > 0xFFFF_FFFF_FFFF_FFFF {
                    0xFFFF_FFFF_FFFF_FFFF
                } else {
                    v as u64
                }
            }
        },
    }
}

/// The unit at the end of `u`: where the number ends and the bytes per unit.
fn unit_suffix(u: &Vec<char>) -> (r: (usize, u64))
    ensures
        r.0 <= u.len(),
        unit_split(u@) == (span(u@, 0, r.0), r.1 as nat),
{
    let n = u.len();
    let ghost c = u@;
    let (end, mult): (usize, u64) = if n >= 2 && u[n - 1] == 'B' && u[n - 2] == 'T' {
        (n - 2, 0x100_0000_0000)
    } else if n >= 2 && u[n - 1] == 'B' && u[n - 2] == 'G' {
        (n - 2, 0x4000_0000)
    } else if n >= 2 && u[n - 1] == 'B' && u[n - 2] == 'M' {
        (n - 2, 0x10_0000)
    } else if n >= 2 && u[n - 1] == 'B' && u[n - 2] == 'K' {
        (n - 2, 0x400)
    } else if n >= 1 && u[n - 1] == 'B' {
        (n - 1, 1)
    } else {
        (n, 1)
    };
    proof {
        let two = c.skip(n - 2);
        let one = c.skip(n - 1);
        if n >= 2 {
            assert(two.len() == 2 && two[0] == c[n - 2] && two[1] == c[n - 1]);
        }
        if n >= 1 {
            assert(one.len() == 1 && one[0] == c[n - 1]);
        }
        if n >= 2 && c[n - 1] == 'B' && c[n - 2] == 'T' {
            assert(two =~= seq!['T', 'B']);
        } else if n >= 2 && c[n - 1] == 'B' && c[n - 2] == 'G' {
            assert(!ends_with(c, seq!['T', 'B']));
            assert(two =~= seq!['G', 'B']);
        } else if n >= 2 && c[n - 1] == 'B' && c[n - 2] == 'M' {
            assert(!ends_with(c, seq!['T', 'B']));
            assert(!ends_with(c, seq!['G', 'B']));
            assert(two =~= seq!['M', 'B']);
        } else if n >= 2 && c[n - 1] == 'B' && c[n - 2] == 'K' {
            assert(!ends_with(c, seq!['T', 'B']));
            assert(!ends_with(c, seq!['G', 'B']));
            assert(!ends_with(c, seq!['M', 'B']));
            assert(two =~= seq!['K', 'B']);
        } else {
            if n >= 2 {
                assert(!ends_with(c, seq!['T', 'B']));
                assert(!ends_with(c, seq!['G', 'B']));
                assert(!ends_with(c, seq!['M', 'B']));
                assert(!ends_with(c, seq!['K', 'B']));
            }
            if n >= 1 && c[n - 1] == 'B' {
                assert(one =~= seq!['B']);
            } else if n >= 1 {
                assert(!ends_with(c, seq!['B']));
            }
        }
        assert(unit_split(c).0 =~= span(c, 0, end));
    }
    (end, mult)
}

/// `decimal_times(value(w ++ f), e - |f|, mult)` for the mantissa
/// `u[p1..me] . u[mf..epos]` and the exponent of sign `eneg` and magnitude
/// `m`, of which `em` is `min(m, 2^100)`.
#[verifier::rlimit(30)]
fn finite_value(
    u: &Vec<char>,
    p1: usize,
    me: usize,
    mf: usize,
    epos: usize,
    eneg: bool,
    em: u128,
    mult: u64,
    Ghost(m): Ghost<nat>,
) -> (r: u64)
    requires
        p1 <= me <= mf <= epos <= u.len(),
        all_digits(span(u@, p1, me)),
        all_digits(span(u@, mf, epos)),
        1 <= mult <= 0x100_0000_0000,
        em == min_nat(m, EXPONENT_CAP as nat),
    ensures
        r == decimal_times(
            digits_value(span(u@, p1, me) + span(u@, mf, epos)),
            (if eneg {
                -(m as int)
            } else {
                m as int
            }) - span(u@, mf, epos).len(),
            mult as nat,
        ),
{
    let ghost w = span(u@, p1, me);
    let ghost f = span(u@, mf, epos);
    let ds = mantissa_digits(u, p1, me, mf, epos);
    let fl = epos - mf;
    proof {
        assert(all_digits(ds@)) by {
            assert forall|j: int| 0 <= j < ds@.len() implies #[trigger] is_digit(ds@[j]) by {
                if j < w.len() {
                    assert(ds@[j] == w[j]);
                } else {
                    assert(ds@[j] == f[j - w.len()]);
                }
            }
        }
        assert(f.len() == fl);
    }
    let (up, shift): (bool, u128) = if !eneg {
        if em >= fl as u128 {
            (true, em - fl as u128)
        } else {
            (false, fl as u128 - em)
        }
    } else {
        (false, fl as u128 + em)
    };
    let rd = read_decimal(&ds, up, shift);
    let ghost x_exec: int = if up {
        shift as int
    } else {
        -(shift as int)
    };
    let ghost nd = decimal_ratio(digits_value(ds@), x_exec);
    proof {
        crate::decimal::lemma_pow10_positive((-x_exec) as nat);
    }
    let r = times_reading(rd, mult, Ghost(nd.0), Ghost(nd.1));
    proof {
        let v = digits_value(ds@);
        lemma_digits_value_bound(ds@);
        let e_true: int = (if eneg {
            -(m as int)
        } else {
            m as int
        }) - fl;
        assert(x_exec == (if !eneg {
            em - fl
        } else {
            -(fl + em)
        }));
        assert(ds@.len() < 0x1_0000_0000_0000_0000);
        if m >= EXPONENT_CAP {
            lemma_far_equal(v, ds@.len(), x_exec, e_true, mult as nat);
        } else {
            assert(x_exec == e_true);
        }
    }
    r
}

/// The number `u[p..q]`, which is not empty, times `mult`.
#[verifier::rlimit(30)]
fn number_value(u: &Vec<char>, p: usize, q: usize, mult: u64) -> (r: Result<u64, SizeError>)
    requires
        p < q <= u.len(),
        1 <= mult <= 0x100_0000_0000,
    ensures
        size_result_nat(r) == match number_text(span(u@, p, q)) {
            None => Err(SizeError::InvalidNumber),
            Some(n) => Ok(number_times(n, mult as nat)),
        },
{
    let ghost num = span(u@, p, q);
    let (neg, p1) = sign_range(u, p, q);
    let ghost rest = span(u@, p1, q);
    proof {
        assert(['I', 'N', 'F']@ =~= seq!['I', 'N', 'F']);
        assert(['I', 'N', 'F', 'I', 'N', 'I', 'T', 'Y']@ =~= seq![
            'I',
            'N',
            'F',
            'I',
            'N',
            'I',
            'T',
            'Y',
        ]);
        assert(['N', 'A', 'N']@ =~= seq!['N', 'A', 'N']);
    }
    if range_is(u, p1, q, &['I', 'N', 'F']) || range_is(
        u,
        p1,
        q,
        &['I', 'N', 'F', 'I', 'N', 'I', 'T', 'Y'],
    ) {
        return Ok(
            if neg {
                0
            } else {
                0xFFFF_FFFF_FFFF_FFFFu64
            },
        );
    }
    if range_is(u, p1, q, &['N', 'A', 'N']) {
        return Ok(0);
    }
    let epos = find_char(u, p1, q, 'E');
    let parts = split_mantissa_range(u, p1, epos);
    proof {
        if epos < q {
            assert(rest.take((epos - p1) as int) =~= span(u@, p1, epos));
            assert(rest.skip((epos - p1) as int + 1) =~= span(u@, (epos + 1) as usize, q));
        } else {
            assert(rest =~= span(u@, p1, epos));
        }
    }
    let (me, mf) = match parts {
        None => {
            return Err(SizeError::InvalidNumber);
        },
        Some(x) => x,
    };
    let (eneg, em): (bool, u128) = if epos < q {
        match exponent_range(u, epos + 1, q) {
            None => {
                return Err(SizeError::InvalidNumber);
            },
            Some(x) => x,
        }
    } else {
        (false, 0)
    };
    let ghost m: nat = if epos < q {
        exponent_parts(span(u@, (epos + 1) as usize, q)).unwrap().1
    } else {
        0
    };
    proof {
        if epos >= q {
            assert(em == min_nat(0, EXPONENT_CAP as nat));
        }
    }
    if neg {
        return Ok(0);
    }
    Ok(finite_value(u, p1, me, mf, epos, eneg, em, mult, Ghost(m)))
}

/// Reads a size such as `10MB`, `1.5GB`, `500KB` or `123`: white space at
/// either end is ignored, letters are taken in upper case, and an optional
/// unit `B`, `KB`, `MB`, `GB` or `TB` (powers of 1024) may end it. The
/// number is read as std reads an `f64` (sign, `inf`, `nan`, exponent; the
/// nearest double), multiplied by the unit, and rounded toward zero into a
/// `u64`.
pub fn parse_size(s: &str) -> (r: Result<u64, SizeError>)
    ensures
        size_result_nat(r) == size_of_text(s@),
{
    let cs = chars_of(s);
    let (a, b) = trim_bounds(&cs, 0, cs.len());
    proof {
        assert(span(cs@, 0, cs.len()) =~= s@);
    }
    let t = string_of_range(&cs, a, b);
    let up = to_uppercase(t.as_str());
    parse_clean_size(up.as_str())
}

/// Reads a size from text already trimmed and in upper case (see
/// `size_of_clean`).
pub fn parse_clean_size(clean: &str) -> (r: Result<u64, SizeError>)
    ensures
        size_result_nat(r) == size_of_clean(clean@),
{
    let u = chars_of(clean);
    let (end, mult) = unit_suffix(&u);
    let (p, q) = trim_bounds(&u, 0, end);
    if p == q {
        return Err(SizeError::Empty);
    }
    number_value(&u, p, q, mult)
}


pub open spec fn pow2(e: nat) -> nat
    decreases e,
{
    if e == 0 {
        1
    } else {
        2 * pow2((e - 1) as nat)
    }
}

/// How many low bits a `f64` cannot hold of `n`.
pub open spec fn double_excess_bits(n: nat) -> nat
    decreases n,
{
    if n < 0x20_0000_0000_0000 {
        0
    } else {
        1 + double_excess_bits(n / 2)
    }
}

/// `n as f64`: the nearest double, ties to an even mantissa.
pub open spec fn as_double(n: nat) -> nat {
    let e = double_excess_bits(n);
    div_round_even(n, pow2(e)) * pow2(e)
}

/// Which of `B`, `KB`, `MB`, `GB`, `TB` a byte count is shown in.
pub open spec fn size_unit(bytes: nat) -> nat {
    if bytes < 0x400 {
        0
    } else if bytes < 0x10_0000 {
        1
    } else if bytes < 0x4000_0000 {
        2
    } else if bytes < 0x100_0000_0000 {
        3
    } else {
        4
    }
}

pub open spec fn unit_bytes(u: nat) -> nat {
    if u == 0 {
        1
    } else if u == 1 {
        0x400
    } else if u == 2 {
        0x10_0000
    } else if u == 3 {
        0x4000_0000
    } else {
        0x100_0000_0000
    }
}

pub open spec fn unit_name(u: nat) -> Seq<char> {
    if u == 0 {
        seq!['B']
    } else if u == 1 {
        seq!['K', 'B']
    } else if u == 2 {
        seq!['M', 'B']
    } else if u == 3 {
        seq!['G', 'B']
    } else {
        seq!['T', 'B']
    }
}

/// What `format_size` writes: whole bytes as `512 B`, larger counts in the
/// largest unit they reach, with one decimal, as `{:.1}` writes the `f64`
/// quotient (rounded half to even).
pub open spec fn size_text(bytes: nat) -> Seq<char> {
    let u = size_unit(bytes);
    if u == 0 {
        decimal_text(bytes) + seq![' ', 'B']
    } else {
        let t = div_round_even(as_double(bytes) * 10, unit_bytes(u));
        decimal_text(t / 10) + seq!['.', digit_char(t % 10), ' '] + unit_name(u)
    }
}

proof fn lemma_pow2_positive(e: nat)
    ensures
        pow2(e) >= 1,
    decreases e,
{
    if e > 0 {
        lemma_pow2_positive((e - 1) as nat);
    }
}

/// `div_round_even(x, d)` computed.
fn round_even_div(x: u128, d: u128) -> (r: u128)
    requires
        d > 0,
        x <= 0x1_0000_0000_0000_0000_0000_0000,
    ensures
        r == div_round_even(x as nat, d as nat),
{
    let q = x / d;
    let rem = x % d;
    assert(q <= x) by {
        vstd::arithmetic::div_mod::lemma_div_is_ordered_by_denominator(x as int, 1, d as int);
    }
    if rem > d - rem {
        q + 1
    } else if rem == d - rem {
        q + q % 2
    } else {
        q
    }
}

/// `bytes as f64`, as an integer.
fn double_of(bytes: u64) -> (r: u128)
    ensures
        r == as_double(bytes as nat),
        r <= 0x1_0000_0000_0000_1000,
{
    let mut x: u64 = bytes;
    let mut p: u128 = 1;
    let ghost mut e: nat = 0;
    while x >= 0x20_0000_0000_0000
        invariant
            p == pow2(e),
            1 <= p <= 0x1000,
            x == bytes as nat / pow2(e),
            double_excess_bits(bytes as nat) == e + double_excess_bits(x as nat),
        decreases x,
    {
        proof {
            lemma_pow2_positive(e);
            vstd::arithmetic::div_mod::lemma_div_denominator(bytes as int, pow2(e) as int, 2);
            assert(pow2(e + 1) == pow2(e) * 2);
            assert(x as nat * pow2(e) <= bytes) by {
                vstd::arithmetic::div_mod::lemma_fundamental_div_mod(bytes as int, pow2(e) as int);
                assert(x as nat * pow2(e) == pow2(e) * x as nat) by (nonlinear_arith);
            }
            assert(pow2(e) < 0x800) by (nonlinear_arith)
                requires
                    x as nat * pow2(e) <= 0xFFFF_FFFF_FFFF_FFFF,
                    x >= 0x20_0000_0000_0000,
            ;
        }
        x = x / 2;
        p = p * 2;
        proof {
            e = e + 1;
        }
    }
    proof {
        lemma_pow2_positive(e);
    }
    let m = round_even_div(bytes as u128, p);
    proof {
        let q = bytes as nat / p as nat;
        vstd::arithmetic::div_mod::lemma_fundamental_div_mod(bytes as int, p as int);
        assert(m <= q + 1);
        assert(q * p <= bytes) by (nonlinear_arith)
            requires
                bytes == p * q + (bytes as nat % p as nat),
                bytes as nat % p as nat >= 0,
        ;
        assert(m * p <= q * p + p) by (nonlinear_arith)
            requires
                m <= q + 1,
        ;
    }
    m * p
}

/// Writes a byte count for people: `512 B`, `1.5 KB`, `2.0 MB` and so on up
/// to `TB`.
pub fn format_size(bytes: u64) -> (s: String)
    ensures
        s@ == size_text(bytes as nat),
{
    let mut out: Vec<char> = Vec::new();
    if bytes < 0x400 {
        push_decimal(&mut out, bytes as u128);
        out.push(' ');
        out.push('B');
        proof {
            assert(out@ =~= decimal_text(bytes as nat) + seq![' ', 'B']);
        }
        return string_of(&out);
    }
    let (unit, name): (u128, [char; 2]) = if bytes < 0x10_0000 {
        (0x400, ['K', 'B'])
    } else if bytes < 0x4000_0000 {
        (0x10_0000, ['M', 'B'])
    } else if bytes < 0x100_0000_0000 {
        (0x4000_0000, ['G', 'B'])
    } else {
        (0x100_0000_0000, ['T', 'B'])
    };
    let d = double_of(bytes);
    let t = round_even_div(d * 10, unit);
    push_decimal(&mut out, t / 10);
    out.push('.');
    let c = digit_to_char(t % 10);
    out.push(c);
    out.push(' ');
    out.push(name[0]);
    out.push(name[1]);
    proof {
        assert(unit == unit_bytes(size_unit(bytes as nat)));
        assert(name@ =~= unit_name(size_unit(bytes as nat)));
        assert(out@ =~= decimal_text(t as nat / 10) + seq!['.', digit_char(t as nat % 10), ' ']
            + unit_name(size_unit(bytes as nat)));
    }
    string_of(&out)
}

/// The message for a size that was refused, `s` being the text given.
pub open spec fn size_error_text(e: SizeError, s: Seq<char>) -> Seq<char> {
    match e {
        SizeError::Empty => "invalid size: "@ + s,
        SizeError::InvalidNumber => "invalid number in size: "@ + s,
    }
}

pub fn size_error_message(e: SizeError, s: &str) -> (r: String)
    ensures
        r@ == size_error_text(e, s@),
{
    let mut out: Vec<char> = Vec::new();
    match e {
        SizeError::Empty => crate::text::push_str(&mut out, "invalid size: "),
        SizeError::InvalidNumber => crate::text::push_str(&mut out, "invalid number in size: "),
    }
    crate::text::push_str(&mut out, s);
    crate::text::string_of(&out)
}


/// A whole number below `2^53` is read as itself.
proof fn lemma_whole_number_reads_exactly(b: nat)
    requires
        b < pow2(53),
    ensures
        floor_times(nearest_ratio(b, 1), 1) == b,
{
    if b == 0 {
        assert(floor_times((0nat, 0int), 1) == 0) by {
            assert(0 * pow2(0) * 1 == 0) by (nonlinear_arith);
        }
        return;
    }
    let g = crate::ratio::ratio_log2(b, 1);
    crate::ratio::lemma_ratio_log2(b, 1);
    if g >= 53 {
        crate::ratio::lemma_at_least_down(b, 1, 53, g);
        assert(b >= 1 * pow2(53));
    }
    if g < 0 {
        crate::ratio::lemma_at_least_down(b, 1, g + 1, 0);
        assert(b * pow2(0) >= 1 || b >= 1 * pow2(0));
        assert(pow2(0) == 1);
    }
    assert(0 <= g <= 52);
    let j = (52 - g) as nat;
    let m = b * pow2(j);
    lemma_pow2_positive(j);
    lemma_pow2_add((g + 1) as nat, j);
    assert((g + 1) as nat + j == 53);
    assert(m < pow2(53)) by (nonlinear_arith)
        requires
            b < 1 * pow2((g + 1) as nat),
            m == b * pow2(j),
            pow2(53) == pow2((g + 1) as nat) * pow2(j),
            pow2(j) >= 1,
    ;
    crate::monotone::lemma_round_even_exact(m, 1);
    assert(m * 1 == m);
    if j == 0 {
        assert(pow2(0) == 1);
        assert(crate::ratio::round_scaled(b, 1, 0) == crate::decimal::div_round_even(b, 1 * pow2(0)));
        assert(b * 1 == b);
        crate::monotone::lemma_round_even_exact(b, 1);
        assert(floor_times((b, 0int), 1) == b * pow2(0) * 1);
        assert(b * pow2(0) * 1 == b) by (nonlinear_arith)
            requires
                pow2(0) == 1,
        ;
    } else {
        assert(crate::ratio::round_scaled(b, 1, g - 52) == crate::decimal::div_round_even(b * pow2(j), 1));
        vstd::arithmetic::div_mod::lemma_div_by_multiple(b as int, pow2(j) as int);
        assert((m * 1) / pow2(j) == b);
    }
}

/// A size below 1024 bytes reads back from the text it is written as: the
/// text that `format_size` gives (in upper case and without white space at
/// its ends, as `parse_size` makes it) is read by `parse_clean_size` as the
/// same number of bytes.
pub proof fn lemma_small_size_round_trip(b: nat)
    requires
        b < 1024,
    ensures
        size_of_clean(size_text(b)) == Ok::<nat, SizeError>(b),
{
    lemma_pow2_values();
    let d = decimal_text(b);
    crate::trash::lemma_decimal_text(b);
    let c = size_text(b);
    assert(c =~= d + seq![' ', 'B']);
    assert(c[c.len() - 2] == ' ');
    assert(!ends_with(c, seq!['T', 'B'])) by {
        if c.len() >= 2 { assert(c.skip(c.len() - 2)[0] == ' '); }
    }
    assert(!ends_with(c, seq!['G', 'B'])) by {
        if c.len() >= 2 { assert(c.skip(c.len() - 2)[0] == ' '); }
    }
    assert(!ends_with(c, seq!['M', 'B'])) by {
        if c.len() >= 2 { assert(c.skip(c.len() - 2)[0] == ' '); }
    }
    assert(!ends_with(c, seq!['K', 'B'])) by {
        if c.len() >= 2 { assert(c.skip(c.len() - 2)[0] == ' '); }
    }
    assert(c.skip(c.len() - 1) =~= seq!['B']);
    let num = c.take(c.len() - 1);
    assert(num =~= d.push(' '));
    assert(unit_split(c) == (num, 1nat));
    // the number without the space
    assert(crate::decimal::is_digit(d[0]));
    assert(!crate::text::is_white_space(d[0]));
    assert(num[0] == d[0]);
    assert(crate::text::trim_start(num) == num);
    assert(crate::text::is_white_space(num.last()));
    assert(num.drop_last() =~= d);
    assert(crate::decimal::is_digit(d.last()));
    assert(crate::text::trim_end(d) == d);
    assert(crate::text::trim(num) == d);
    // read as a whole number
    assert(sign_split(d) == (false, d));
    assert(d != seq!['I', 'N', 'F']) by {
        if d.len() == 3 { assert(d[0] != 'I'); }
    }
    assert(d != seq!['I', 'N', 'F', 'I', 'N', 'I', 'T', 'Y']) by {
        if d.len() == 8 { assert(d[0] != 'I'); }
    }
    assert(d != seq!['N', 'A', 'N']) by {
        if d.len() == 3 { assert(d[0] != 'N'); }
    }
    assert forall|i: int| 0 <= i < d.len() implies d[i] != 'E' && d[i] != '.' by {
        assert(crate::decimal::is_digit(d[i]));
    }
    crate::decimal::lemma_first_index_of(d, 'E', d.len());
    crate::decimal::lemma_first_index_of(d, '.', d.len());
    assert(split_mantissa(d) == Some((d, Seq::<char>::empty())));
    assert(number_text(d) == Some((false, NumberKind::Finite, d, Seq::<char>::empty(), 0int)));
    assert(d + Seq::<char>::empty() =~= d);
    assert(decimal_ratio(b, 0) == (b * pow10(0), 1nat));
    assert(pow10(0) == 1);
    assert(b * 1 == b);
    lemma_whole_number_reads_exactly(b);
}


/// `x / d` rounded to the nearest integer lies within half of `d` of `x`
/// once multiplied back.
proof fn lemma_round_even_near(x: nat, d: nat)
    requires
        d > 0,
    ensures
        2 * (div_round_even(x, d) * d) <= 2 * x + d,
        2 * x <= 2 * (div_round_even(x, d) * d) + d,
{
    let q = x / d;
    let r = x % d;
    vstd::arithmetic::div_mod::lemma_fundamental_div_mod(x as int, d as int);
    vstd::arithmetic::div_mod::lemma_mod_bound(x as int, d as int);
    assert(x == q * d + r);
    let t = div_round_even(x, d);
    if 2 * r > d {
        assert(t == q + 1);
        assert(t * d == q * d + d) by (nonlinear_arith)
            requires
                t == q + 1,
        ;
    } else if 2 * r == d {
        if q % 2 == 1 {
            assert(t == q + 1);
            assert(t * d == q * d + d) by (nonlinear_arith)
                requires
                    t == q + 1,
            ;
        } else {
            assert(t == q);
        }
    } else {
        assert(t == q);
    }
}

/// How many low bits a double cannot hold of a count below `2^(53 + k)`.
proof fn lemma_excess_bits_bound(n: nat, k: nat)
    requires
        n < pow2(53 + k),
    ensures
        double_excess_bits(n) <= k,
    decreases n,
{
    if n >= 0x20_0000_0000_0000 {
        lemma_pow2_values();
        if k == 0 {
            assert(false);
        } else {
            assert(pow2(53 + k) == 2 * pow2((53 + k - 1) as nat));
            assert((53 + k - 1) as nat == 53 + (k - 1) as nat);
            lemma_excess_bits_bound(n / 2, (k - 1) as nat);
        }
    }
}

/// A count below `2^64` turned into a double moves by at most `2^10`, and
/// not at all below `2^53`; it stays below `2^65`.
proof fn lemma_as_double_near(n: nat)
    requires
        n < pow2(64),
    ensures
        n <= as_double(n) + 0x400,
        as_double(n) <= n + 0x400,
        n < pow2(53) ==> as_double(n) == n,
{
    lemma_pow2_values();
    assert(pow2(64) == pow2(53 + 11));
    lemma_excess_bits_bound(n, 11);
    let e = double_excess_bits(n);
    lemma_pow2_positive(e);
    lemma_round_even_near(n, pow2(e));
    if e < 11 {
        lemma_pow2_strict(e, 11);
    }
    reveal_with_fuel(pow2, 12);
    assert(pow2(e) <= 0x800);
    if n < pow2(53) {
        assert(e == 0);
        assert(pow2(0) == 1);
        crate::monotone::lemma_round_even_exact(n, 1);
        assert(n * 1 == n);
        assert(div_round_even(n, 1) * 1 == div_round_even(n, 1));
    }
}


/// The double nearest to `n / d`, for `n / d < 2^l`, has an exponent at most
/// `l - 52` (so below zero), and lies within half of `1 / d` times its unit
/// in the last place of `n / d`: with `(m, e)` the double and `p = 2^-e`,
/// `m * d` is within `d / 2` of `n * p`.
proof fn lemma_nearest_ratio_near(n: nat, d: nat, l: nat)
    requires
        n > 0,
        d > 0,
        l <= 51,
        n < d * pow2(l),
    ensures
        nearest_ratio(n, d).1 <= l - 52,
        2 * (nearest_ratio(n, d).0 * d) <= 2 * (n * pow2((-nearest_ratio(n, d).1) as nat)) + d,
        2 * (n * pow2((-nearest_ratio(n, d).1) as nat)) <= 2 * (nearest_ratio(n, d).0 * d) + d,
{
    let g = crate::ratio::ratio_log2(n, d);
    crate::ratio::lemma_ratio_log2(n, d);
    if g >= l {
        crate::ratio::lemma_at_least_down(n, d, l as int, g);
        assert(false);
    }
    let k = g - 52;
    let kk = (-k) as nat;
    assert(kk >= 2);
    let m0 = crate::ratio::round_scaled(n, d, k);
    assert(m0 == div_round_even(n * pow2(kk), d));
    lemma_round_even_near(n * pow2(kk), d);
    lemma_pow2_values();
    if m0 == pow2(53) {
        let k1 = (kk - 1) as nat;
        assert(pow2(kk) == 2 * pow2(k1));
        assert(pow2(53) == 2 * pow2(52));
        assert(nearest_ratio(n, d) == (pow2(52), k + 1));
        assert((-(k + 1)) as nat == k1);
        let a = pow2(52) * d;
        let b = n * pow2(k1);
        assert(pow2(53) * d == 2 * a) by (nonlinear_arith)
            requires
                pow2(53) == 2 * pow2(52),
                a == pow2(52) * d,
        ;
        assert(n * pow2(kk) == 2 * b) by (nonlinear_arith)
            requires
                pow2(kk) == 2 * pow2(k1),
                b == n * pow2(k1),
        ;
    } else {
        assert(nearest_ratio(n, d) == (m0, k));
    }
}


/// The text that `format_size` writes for a count of at least `1024` bytes
/// (`t / 10` units, with the decimal `t % 10`) reads back as the double
/// nearest to `t / 10`, times the unit.
#[verifier::spinoff_prover]
#[verifier::rlimit(60)]
proof fn lemma_size_text_reads(b: nat)
    requires
        b >= 0x400,
    ensures
        size_of_clean(size_text(b)) == Ok::<nat, SizeError>(min_nat(
            floor_times(
                nearest_ratio(div_round_even(as_double(b) * 10, unit_bytes(size_unit(b))), 10),
                unit_bytes(size_unit(b)),
            ),
            u64_max(),
        )),
{
    let u = size_unit(b);
    let mult = unit_bytes(u);
    let t = div_round_even(as_double(b) * 10, mult);
    let dq = decimal_text(t / 10);
    let f = crate::text::digit_char(t % 10);
    crate::trash::lemma_decimal_text(t / 10);
    crate::trash::lemma_digit_char(t % 10);
    let c = size_text(b);
    let name = unit_name(u);
    assert(u >= 1);
    assert(c == dq + seq!['.', f, ' '] + name);
    assert(name.len() == 2);
    assert(c.skip(c.len() - 2) =~= name);
    let num = c.take(c.len() - 2);
    assert(num =~= dq + seq!['.', f, ' ']);
    assert(unit_split(c) == (num, mult));
    assert(is_digit(dq[0]));
    assert(num[0] == dq[0]);
    assert(!crate::text::is_white_space(num[0]));
    assert(crate::text::trim_start(num) == num);
    let m = dq + seq!['.', f];
    assert(num.drop_last() =~= m);
    assert(crate::text::is_white_space(num.last()));
    assert(!crate::text::is_white_space(m.last()));
    assert(crate::text::trim_end(m) == m);
    assert(trim(num) == m);
    assert(sign_split(m) == (false, m));
    assert(m != seq!['I', 'N', 'F']) by {
        if m.len() == 3 { assert(m[0] != 'I'); }
    }
    assert(m != seq!['I', 'N', 'F', 'I', 'N', 'I', 'T', 'Y']) by {
        if m.len() == 8 { assert(m[0] != 'I'); }
    }
    assert(m != seq!['N', 'A', 'N']) by {
        if m.len() == 3 { assert(m[0] != 'N'); }
    }
    assert forall|i: int| 0 <= i < m.len() implies m[i] != 'E' by {
        if i < dq.len() {
            assert(is_digit(dq[i]));
        }
    }
    lemma_first_index_of(m, 'E', m.len());
    assert forall|i: int| 0 <= i < dq.len() implies m[i] != '.' by {
        assert(is_digit(dq[i]));
    }
    lemma_first_index_of(m, '.', dq.len());
    assert(m.take(dq.len() as int) =~= dq);
    assert(m.skip(dq.len() as int + 1) =~= seq![f]);
    assert(all_digits(seq![f]));
    assert(split_mantissa(m) == Some((dq, seq![f])));
    assert(number_text(m) == Some((false, NumberKind::Finite, dq, seq![f], 0int)));
    crate::decimal::lemma_digits_value_push(dq, f);
    assert(dq + seq![f] =~= dq.push(f));
    assert(digits_value(dq + seq![f]) == t) by {
        assert(digits_value(dq.push(f)) == digits_value(dq) * 10 + crate::decimal::digit_value(f));
    }
    assert(decimal_ratio(t, -1) == (t, pow10(1)));
    assert(pow10(1) == 10) by {
        reveal_with_fuel(pow10, 2);
    }
}


/// From the errors of the three roundings to the error of the whole: with
/// `m * unit = y * p + r`, the distance of `y` from `b`, times `10 p`, is
/// what each rounding moved.
proof fn lemma_round_trip_sum(b: int, a: int, t: int, m: int, p: int, unit: int, y: int, r: int)
    requires
        m * unit == y * p + r,
    ensures
        10 * p * (y - b) == 10 * p * (a - b) + p * (t * unit - 10 * a) + unit * (10 * m - t * p) - 10 * r,
{
    assert(10 * p * (y - b) == 10 * p * (a - b) + p * (t * unit - 10 * a) + unit * (10 * m - t * p) - 10 * r)
        by (nonlinear_arith)
        requires
            m * unit == y * p + r,
    ;
}

/// The powers of two that bound the shown numbers.
proof fn lemma_pow2_bounds()
    ensures
        pow2(11) == 0x800,
        pow2(25) == 0x200_0000,
        pow2(27) == 0x800_0000,
        pow2(41) == 0x200_0000_0000,
{
    reveal_with_fuel(pow2, 28);
    lemma_pow2_add(11, 30);
    reveal_with_fuel(pow2, 31);
}

/// How far the shown number reaches: `t`, ten times the shown number, is
/// positive and below `10 * 2^11` for the units up to `GB`, and below
/// `10 * 2^25` for `TB`.
proof fn lemma_shown_number(b: nat)
    requires
        0x400 <= b <= u64_max(),
    ensures
        size_unit(b) >= 1,
        size_unit(b) <= 3 ==> as_double(b) == b,
        size_unit(b) <= 3 ==> 0x400 <= unit_bytes(size_unit(b)) <= 0x4000_0000,
        size_unit(b) == 4 ==> unit_bytes(size_unit(b)) == 0x100_0000_0000,
        b <= as_double(b) + 0x400,
        as_double(b) <= b + 0x400,
        0 < div_round_even(as_double(b) * 10, unit_bytes(size_unit(b))),
        size_unit(b) <= 3 ==> div_round_even(as_double(b) * 10, unit_bytes(size_unit(b))) < 10 * pow2(11),
        div_round_even(as_double(b) * 10, unit_bytes(size_unit(b))) < 10 * pow2(25),
{
    lemma_pow2_values();
    lemma_pow2_bounds();
    let u = size_unit(b);
    let unit = unit_bytes(u);
    let a = as_double(b);
    lemma_as_double_near(b);
    lemma_round_even_near(a * 10, unit);
    if u <= 3 {
        assert(a == b);
    }
    assert(a >= unit);
}

/// The sum of the three roundings' errors stays within a sixteenth of the
/// unit.
proof fn lemma_round_trip_bound(z: int, p: int, unit: int, e4: int, d1: int, d2: int, d4: int, r: int)
    requires
        10 * p * z == 10 * p * d4 + p * d1 + unit * d2 - 10 * r,
        -e4 <= d4 <= e4,
        -unit <= 2 * d1 <= unit,
        -5 <= d2 <= 5,
        0 <= r < p,
        p > 0,
        unit > 0,
        80 * p * e4 + 40 * unit + 80 * p <= p * unit,
    ensures
        16 * z <= unit,
        -16 * z <= unit,
{
    assert(20 * p * z <= 20 * p * e4 + p * unit + 10 * unit && 20 * p * z >= -20 * p * e4 - p * unit - 10 * unit
        - 20 * p) by (nonlinear_arith)
        requires
            10 * p * z == 10 * p * d4 + p * d1 + unit * d2 - 10 * r,
            -e4 <= d4 <= e4,
            -unit <= 2 * d1 <= unit,
            -5 <= d2 <= 5,
            0 <= r < p,
            p > 0,
            unit > 0,
    ;
    assert(16 * z <= unit && -16 * z <= unit) by (nonlinear_arith)
        requires
            20 * p * z <= 20 * p * e4 + p * unit + 10 * unit,
            20 * p * z >= -20 * p * e4 - p * unit - 10 * unit - 20 * p,
            80 * p * e4 + 40 * unit + 80 * p <= p * unit,
            p > 0,
    ;
}

/// A size written by `format_size` reads back within a sixteenth of the
/// unit it is shown in: the text (in upper case and trimmed, as
/// `parse_size` makes it) is read by `parse_clean_size` as a count of bytes
/// that differs from the one written by at most the unit's bytes over 16.
/// Below 1024 bytes the count reads back exactly (see
/// `lemma_small_size_round_trip`).
#[verifier::spinoff_prover]
#[verifier::rlimit(60)]
pub proof fn lemma_size_round_trip(b: nat)
    requires
        0x400 <= b <= u64_max(),
    ensures
        size_of_clean(size_text(b)) is Ok,
        16 * (size_of_clean(size_text(b))->Ok_0 - b) <= unit_bytes(size_unit(b)),
        16 * (b - size_of_clean(size_text(b))->Ok_0) <= unit_bytes(size_unit(b)),
{
    lemma_pow2_bounds();
    let u = size_unit(b);
    let unit = unit_bytes(u);
    let a = as_double(b);
    let t = div_round_even(a * 10, unit);
    lemma_shown_number(b);
    lemma_round_even_near(a * 10, unit);
    lemma_size_text_reads(b);
    let l: nat = if u <= 3 { 11 } else { 25 };
    lemma_nearest_ratio_near(t, 10, l);
    let m = nearest_ratio(t, 10).0;
    let e = nearest_ratio(t, 10).1;
    let k = (-e) as nat;
    let p = pow2(k);
    let lo: nat = if u <= 3 { 41 } else { 27 };
    if lo < k {
        lemma_pow2_strict(lo, k);
    }
    assert(p >= pow2(lo));
    let y = (m * unit) / p;
    assert(floor_times((m, e), unit) == y);
    let r = (m * unit) % p;
    vstd::arithmetic::div_mod::lemma_fundamental_div_mod((m * unit) as int, p as int);
    vstd::arithmetic::div_mod::lemma_mod_bound((m * unit) as int, p as int);
    lemma_round_trip_sum(b as int, a as int, t as int, m as int, p as int, unit as int, y as int, r as int);
    let e4: int = if u <= 3 { 0 } else { 0x400 };
    if u <= 3 {
        assert(80 * p * e4 + 40 * unit + 80 * p <= p * unit) by (nonlinear_arith)
            requires
                e4 == 0,
                0x400 <= unit <= 0x4000_0000,
                p >= 0x200_0000_0000,
        ;
    } else {
        assert(80 * p * e4 + 40 * unit + 80 * p <= p * unit) by (nonlinear_arith)
            requires
                e4 == 0x400,
                unit == 0x100_0000_0000,
                p >= 0x800_0000,
        ;
    }
    lemma_round_trip_bound(
        y - b,
        p as int,
        unit as int,
        e4,
        t * unit - 10 * a,
        10 * m - t * p,
        a - b,
        r as int,
    );
}

} // verus!
