//! Durations written as numbers with units, such as `30d`, `12h` or `7d12h`.
use crate::binary::{
    dmul, dmul_exec, is_normal, lemma_bit_len_between, lemma_dmul, lemma_nearest, lemma_pow2_add,
    lemma_pow2_positive, lemma_pow2_strict, lemma_pow2_values, nearest, nearest_exec, pair_of, pow2_exec,
};
use crate::decimal::{
    all_digits, digits_value, div_round_even, is_digit, lemma_capped_add, lemma_pow10_positive, min_nat, pow10,
    span, split_mantissa, split_mantissa_range,
};
use crate::ratio::nearest_ratio;
use crate::reading::{
    decimal_ratio, lemma_double_large, lemma_double_range, lemma_double_small, mantissa_digits, read_decimal,
    Reading,
};
use crate::size::pow2;
use vstd::arithmetic::div_mod::lemma_fundamental_div_mod_converse;
use vstd::prelude::*;

verus! {

/// Why a duration text was refused.
#[derive(Debug, Clone, Copy, PartialEq, Eq)]
pub enum DurationError {
    /// A unit with no number before it.
    MissingNumber,
    /// A number that is not digits with at most one `.`.
    InvalidNumber,
    /// A character that is neither part of a number nor one of `s m h d w`.
    UnknownUnit(char),
    /// The total does not fit in a `std::time::Duration`.
    TooLarge,
}

pub open spec fn is_number_char(c: char) -> bool {
    is_digit(c) || c == '.'
}

/// How many characters at the start of `s` belong to a number.
pub open spec fn number_prefix_len(s: Seq<char>) -> nat
    decreases s.len(),
{
    if s.len() > 0 && is_number_char(s[0]) {
        1 + number_prefix_len(s.drop_first())
    } else {
        0
    }
}

/// Seconds in one of the units.
pub open spec fn unit_seconds(c: char) -> Option<nat> {
    if c == 's' {
        Some(1)
    } else if c == 'm' {
        Some(60)
    } else if c == 'h' {
        Some(3600)
    } else if c == 'd' {
        Some(86400)
    } else if c == 'w' {
        Some(604800)
    } else {
        None
    }
}

/// A number of seconds, held as a double, in nanoseconds: rounded to the
/// nearest, halves to even.
pub open spec fn nanos_from(y: (nat, int)) -> nat {
    if y.1 >= 0 {
        y.0 * pow2(y.1 as nat) * 1_000_000_000
    } else {
        div_round_even(y.0 * 1_000_000_000, pow2((-y.1) as nat))
    }
}

/// `whole.frac` times `secs` seconds, in nanoseconds, as doubles compute
/// it: the number is read as the nearest double, multiplied (unless `secs`
/// is 1) by `secs`, the product rounded to the nearest double, and the
/// result taken to the nearest nanosecond, halves to even.
pub open spec fn nanos_of(whole: Seq<char>, frac: Seq<char>, secs: nat) -> nat {
    let (n, d) = decimal_ratio(digits_value(whole + frac), -(frac.len() as int));
    let x = nearest_ratio(n, d);
    nanos_from(scaled_seconds(x, secs))
}

pub proof fn lemma_number_prefix_len_bound(s: Seq<char>)
    ensures
        number_prefix_len(s) <= s.len(),
        number_prefix_len(s) < s.len() ==> !is_number_char(s[number_prefix_len(s) as int]),
        forall|i: int| 0 <= i < number_prefix_len(s) ==> is_number_char(#[trigger] s[i]),
    decreases s.len(),
{
    if s.len() > 0 && is_number_char(s[0]) {
        let t = s.drop_first();
        lemma_number_prefix_len_bound(t);
        assert forall|i: int| 0 <= i < number_prefix_len(s) implies is_number_char(
            #[trigger] s[i],
        ) by {
            if i > 0 {
                assert(s[i] == t[i - 1]);
            }
        }
        if number_prefix_len(s) < s.len() {
            assert(s[number_prefix_len(s) as int] == t[number_prefix_len(t) as int]);
        }
    }
}

pub proof fn lemma_number_prefix_len_is(s: Seq<char>, m: nat)
    requires
        m <= s.len(),
        forall|i: int| 0 <= i < m ==> is_number_char(#[trigger] s[i]),
        m == s.len() || !is_number_char(s[m as int]),
    ensures
        number_prefix_len(s) == m,
    decreases m,
{
    if m > 0 {
        let t = s.drop_first();
        assert forall|i: int| 0 <= i < m - 1 implies is_number_char(#[trigger] t[i]) by {
            assert(t[i] == s[i + 1]);
            assert(is_number_char(s[i + 1]));
        }
        if m < s.len() {
            assert(t[m - 1] == s[m as int]);
        }
        lemma_number_prefix_len_is(t, (m - 1) as nat);
        assert(is_number_char(s[0]));
    }
}

/// The total of the terms of `s`, in nanoseconds, or the first fault in it.
pub open spec fn duration_total(s: Seq<char>) -> Result<nat, DurationError>
    decreases s.len(),
{
    let j = number_prefix_len(s);
    let num = s.take(j as int);
    if j >= s.len() {
        if j == 0 {
            Ok(0)
        } else {
            match split_mantissa(num) {
                Some((a, b)) => Ok(nanos_of(a, b, 1)),
                None => Err(DurationError::InvalidNumber),
            }
        }
    } else if j == 0 {
        Err(DurationError::MissingNumber)
    } else {
        match split_mantissa(num) {
            None => Err(DurationError::InvalidNumber),
            Some((a, b)) => match unit_seconds(s[j as int]) {
                None => Err(DurationError::UnknownUnit(s[j as int])),
                Some(u) => match duration_total(s.skip(j as int + 1)) {
                    Ok(t) => Ok(nanos_of(a, b, u) + t),
                    Err(e) => Err(e),
                },
            },
        }
    }
}

proof fn lemma_total_concat(s1: Seq<char>, s2: Seq<char>)
    requires
        s1.len() > 0,
        unit_seconds(s1.last()) is Some,
        duration_total(s1) is Ok,
    ensures
        duration_total(s1 + s2) == add_to_result(duration_total(s1)->Ok_0, duration_total(s2)),
    decreases s1.len(),
{
    let s = s1 + s2;
    let j = number_prefix_len(s1);
    lemma_number_prefix_len_bound(s1);
    // the number of the first term ends inside `s1`: its last character is a unit
    if j >= s1.len() {
        assert(is_number_char(s1[s1.len() - 1]));
    }
    assert(j < s1.len());
    assert forall|i: int| 0 <= i < j implies is_number_char(#[trigger] s[i]) by {
        assert(s[i] == s1[i]);
    }
    assert(s[j as int] == s1[j as int]);
    lemma_number_prefix_len_is(s, j);
    assert(s.take(j as int) =~= s1.take(j as int));
    let r1 = s1.skip(j as int + 1);
    assert(s.skip(j as int + 1) =~= r1 + s2);
    if r1.len() == 0 {
        assert(r1 + s2 =~= s2);
        assert(duration_total(r1) == Ok::<nat, DurationError>(0));
    } else {
        assert(r1.last() == s1.last());
        lemma_total_concat(r1, s2);
    }
}

/// The longest `std::time::Duration`, in nanoseconds.
pub open spec fn max_duration_nanos() -> nat {
    18446744073709551615_999_999_999
}

/// What `parse_duration` gives for `s`.
pub open spec fn duration_of(s: Seq<char>) -> Result<nat, DurationError> {
    match duration_total(s) {
        Ok(t) => if t <= max_duration_nanos() {
            Ok(t)
        } else {
            Err(DurationError::TooLarge)
        },
        Err(e) => Err(e),
    }
}

/// A duration written as two parts reads as the sum of the parts: when the
/// first part ends in a unit (`7d` and `12h` make `7d12h`), the total of the
/// whole is the total of the first part plus that of the second, or too
/// large when that sum does not fit.
pub proof fn lemma_duration_concat(s1: Seq<char>, s2: Seq<char>)
    requires
        s1.len() > 0,
        unit_seconds(s1.last()) is Some,
        duration_of(s1) is Ok,
        duration_of(s2) is Ok,
    ensures
        duration_of(s1 + s2) == (if duration_of(s1)->Ok_0 + duration_of(s2)->Ok_0 <= max_duration_nanos() {
            Ok::<nat, DurationError>(duration_of(s1)->Ok_0 + duration_of(s2)->Ok_0)
        } else {
            Err(DurationError::TooLarge)
        }),
{
    lemma_total_concat(s1, s2);
}

pub open spec fn as_nat_result(r: Result<u128, DurationError>) -> Result<nat, DurationError> {
    match r {
        Ok(n) => Ok(n as nat),
        Err(e) => Err(e),
    }
}

pub open spec fn add_to_result(a: nat, r: Result<nat, DurationError>) -> Result<nat, DurationError> {
    match r {
        Ok(t) => Ok(a + t),
        Err(e) => Err(e),
    }
}


/// Rounding `a / b` to the nearest integer gives 0 when `a` is below half of `b`.
proof fn lemma_round_even_zero(a: nat, b: nat)
    requires
        2 * a < b,
    ensures
        div_round_even(a, b) == 0,
{
    lemma_fundamental_div_mod_converse(a as int, b as int, 0, a as int);
}

/// A double number of seconds in nanoseconds (see `nanos_from`), for an
/// exponent from `-112` to `33`.
fn nanos_from_exec(y: (u64, i32)) -> (r: u128)
    requires
        y.0 < 0x20_0000_0000_0000,
        -112 <= y.1 <= 33,
    ensures
        r as nat == nanos_from((y.0 as nat, y.1 as int)),
{
    proof {
        lemma_pow2_values();
    }
    if y.1 >= 0 {
        let p = pow2_exec(y.1 as u32);
        proof {
            assert(pow2(33) == 8589934592) by {
                reveal_with_fuel(pow2, 34);
            }
            if y.1 < 33 {
                lemma_pow2_strict(y.1 as nat, 33);
            }
            assert((y.0 as nat) * (p as nat) * 1_000_000_000 <= 0x20_0000_0000_0000 * 8589934592 * 1_000_000_000) by (nonlinear_arith)
                requires
                    y.0 < 0x20_0000_0000_0000,
                    p <= 8589934592,
            ;
            assert((y.0 as nat) * (p as nat) <= 0x20_0000_0000_0000 * 8589934592) by (nonlinear_arith)
                requires
                    y.0 < 0x20_0000_0000_0000,
                    p <= 8589934592,
            ;
        }
        y.0 as u128 * p * 1_000_000_000
    } else {
        let b = pow2_exec((-y.1) as u32);
        let a: u128 = y.0 as u128 * 1_000_000_000;
        proof {
            lemma_pow2_positive((-y.1) as nat);
            if -y.1 < 126 {
                lemma_pow2_strict((-y.1) as nat, 126);
            }
            assert(pow2(127) == 2 * pow2(126));
        }
        let q = a / b;
        let rm = a % b;
        assert(rm < b);
        if 2 * rm > b {
            q + 1
        } else if 2 * rm == b {
            q + q % 2
        } else {
            q
        }
    }
}

/// A unit as a double: normal, of exponent `-52` (a second) to `-33` (a week).
proof fn lemma_unit_double(secs: nat)
    requires
        secs == 1 || secs == 60 || secs == 3600 || secs == 86400 || secs == 604800,
    ensures
        is_normal(nearest(secs, 0)),
        nearest(secs, 0).0 > 0,
        -52 <= nearest(secs, 0).1 <= -33,
{
    lemma_pow2_values();
    lemma_nearest(secs, 0);
    assert(pow2(0) == 1);
    if secs == 1 {
        lemma_bit_len_between(1, 0, 1);
    } else if secs == 60 {
        assert(pow2(6) == 64 && pow2(5) == 32) by {
            reveal_with_fuel(pow2, 7);
        }
        lemma_bit_len_between(60, 5, 6);
    } else if secs == 3600 {
        assert(pow2(12) == 4096 && pow2(11) == 2048) by {
            reveal_with_fuel(pow2, 13);
        }
        lemma_bit_len_between(3600, 11, 12);
    } else if secs == 86400 {
        assert(pow2(17) == 131072 && pow2(16) == 65536) by {
            reveal_with_fuel(pow2, 18);
        }
        lemma_bit_len_between(86400, 16, 17);
    } else {
        assert(pow2(20) == 1048576 && pow2(19) == 524288) by {
            reveal_with_fuel(pow2, 21);
        }
        lemma_bit_len_between(604800, 19, 20);
    }
}

/// The seconds as a double after the unit is applied.
pub open spec fn scaled_seconds(x: (nat, int), secs: nat) -> (nat, int) {
    if secs == 1 {
        x
    } else {
        dmul(x, nearest(secs, 0))
    }
}

/// A number below `2^-60` is no nanosecond, whatever the unit.
proof fn lemma_small_nanos(x: (nat, int), secs: nat)
    requires
        secs == 1 || secs == 60 || secs == 3600 || secs == 86400 || secs == 604800,
        pow2(52) <= x.0 < pow2(53),
        x.1 <= -112,
    ensures
        nanos_from(scaled_seconds(x, secs)) == 0,
{
    lemma_pow2_values();
    lemma_unit_double(secs);
    let y = scaled_seconds(x, secs);
    if secs != 1 {
        lemma_dmul(x, nearest(secs, 0));
    }
    assert(is_normal(y) && y.0 > 0);
    assert(y.1 <= -91);
    let c = (-y.1) as nat;
    assert(pow2(91) == 0x800_0000_0000_0000_0000_0000) by {
        lemma_pow2_add(64, 27);
        reveal_with_fuel(pow2, 28);
    }
    if c > 91 {
        lemma_pow2_strict(91, c);
    }
    assert(2 * (y.0 * 1_000_000_000) < 0x800_0000_0000_0000_0000_0000) by (nonlinear_arith)
        requires
            y.0 < 0x20_0000_0000_0000,
    ;
    lemma_round_even_zero(y.0 * 1_000_000_000, pow2(c));
}

/// A number of at least `2^64` is more nanoseconds than any duration holds,
/// whatever the unit.
proof fn lemma_large_nanos(x: (nat, int), secs: nat)
    requires
        secs == 1 || secs == 60 || secs == 3600 || secs == 86400 || secs == 604800,
        pow2(52) <= x.0 < pow2(53),
        x.1 >= 12,
    ensures
        nanos_from(scaled_seconds(x, secs)) >= max_duration_nanos() + 1,
{
    lemma_pow2_values();
    lemma_unit_double(secs);
    let y = scaled_seconds(x, secs);
    if secs != 1 {
        lemma_dmul(x, nearest(secs, 0));
    }
    assert(y.1 >= 12);
    let c = (y.1 - 12) as nat;
    lemma_pow2_add(12, c);
    lemma_pow2_add(52, 12);
    lemma_pow2_positive(c);
    assert(y.0 * pow2(y.1 as nat) * 1_000_000_000 >= pow2(64) * 1_000_000_000) by (nonlinear_arith)
        requires
            y.0 >= pow2(52),
            pow2(y.1 as nat) == pow2(12) * pow2(c),
            pow2(64) == pow2(52) * pow2(12),
            pow2(c) >= 1,
    ;
}

/// `min(nanos_of(whole, frac, secs), cap)` for the mantissa `ds[lo..e] . ds[f..hi]`,
/// `cap` being one more than the longest duration.
fn term_nanos(ds: &Vec<char>, lo: usize, e: usize, f: usize, hi: usize, secs: u128) -> (r: u128)
    requires
        lo <= e <= f <= hi <= ds.len(),
        all_digits(span(ds@, lo, e)),
        all_digits(span(ds@, f, hi)),
        secs == 1 || secs == 60 || secs == 3600 || secs == 86400 || secs == 604800,
    ensures
        r == min_nat(nanos_of(span(ds@, lo, e), span(ds@, f, hi), secs as nat), (max_duration_nanos() + 1)),
{
    let cap: u128 = 18446744073709551616_000_000_000;
    let digits = mantissa_digits(ds, lo, e, f, hi);
    let fl = hi - f;
    let rd = read_decimal(&digits, false, fl as u128);
    let ghost whole = span(ds@, lo, e);
    let ghost frac = span(ds@, f, hi);
    let ghost nd = decimal_ratio(digits_value(whole + frac), -(frac.len() as int));
    let ghost x = nearest_ratio(nd.0, nd.1);
    proof {
        assert(frac.len() == fl);
        lemma_pow10_positive(fl as nat);
        lemma_unit_double(secs as nat);
        assert(nanos_of(whole, frac, secs as nat) == nanos_from(scaled_seconds(x, secs as nat)));
    }
    match rd {
        Reading::Zero => {
            proof {
                assert(x == (0nat, 0int));
                lemma_dmul(x, nearest(secs as nat, 0));
                assert(nanos_from((0nat, 0int)) == 0) by {
                    assert(0 * pow2(0) * 1_000_000_000 == 0) by (nonlinear_arith);
                }
            }
            0
        },
        Reading::Small => {
            proof {
                lemma_double_small(nd.0, nd.1);
                lemma_small_nanos(x, secs as nat);
            }
            0
        },
        Reading::Large => {
            proof {
                lemma_double_large(nd.0, nd.1);
                lemma_large_nanos(x, secs as nat);
            }
            cap
        },
        Reading::Double(m, ex) => {
            proof {
                lemma_double_range(nd.0, nd.1);
                lemma_pow2_values();
            }
            let y = if secs == 1 {
                (m, ex)
            } else {
                let ue = nearest_exec(secs, 0);
                proof {
                    lemma_dmul(x, nearest(secs as nat, 0));
                }
                dmul_exec((m, ex), ue)
            };
            assert(pair_of(y) == scaled_seconds(x, secs as nat));
            let t = nanos_from_exec(y);
            if t < cap {
                t
            } else {
                cap
            }
        },
    }
}

/// Reads a duration such as `30d`, `12h`, `1.5h` or `7d12h`: terms made of a
/// number and one of the units `s`, `m`, `h`, `d`, `w`, and at the end
/// optionally a number with no unit, counted in seconds. The result is in
/// nanoseconds; each term is rounded to the nearest nanosecond, halves to even.
pub fn parse_duration(s: &str) -> (r: Result<u128, DurationError>)
    ensures
        as_nat_result(r) == duration_of(s@),
{
    let cs = crate::text::chars_of(s);
    let n = cs.len();
    let cap: u128 = 18446744073709551616_000_000_000;
    let mut acc: u128 = 0;
    let ghost mut acc_true: nat = 0;
    let mut i: usize = 0;
    proof {
        assert(cs@.skip(0) =~= cs@);
        match duration_total(cs@) {
            Ok(t) => {},
            Err(e) => {},
        }
    }
    loop
        invariant
            i <= n,
            n == cs.len(),
            cs@ == s@,
            duration_total(s@) == add_to_result(acc_true, duration_total(cs@.skip(i as int))),
            acc == min_nat(acc_true, cap as nat),
            cap as nat == max_duration_nanos() + 1,
        decreases n - i,
    {
        let ghost rest = cs@.skip(i as int);
        let mut k = i;
        while k < n && (cs[k] == '.' || (cs[k] as u32 >= '0' as u32 && cs[k] as u32 <= '9' as u32))
            invariant
                i <= k <= n,
                n == cs.len(),
                rest == cs@.skip(i as int),
                forall|j: int| 0 <= j < k - i ==> is_number_char(#[trigger] rest[j]),
            decreases n - k,
        {
            assert(rest[k - i] == cs@[k as int]);
            k = k + 1;
        }
        proof {
            if k < n {
                assert(rest[k - i] == cs@[k as int]);
            }
            lemma_number_prefix_len_is(rest, (k - i) as nat);
            assert(rest.take((k - i) as int) =~= span(cs@, i, k));
        }
        let split = split_mantissa_range(&cs, i, k);
        if k == n {
            // the last term, in seconds
            if k == i {
                proof {
                    assert(duration_total(rest) == Ok::<nat, DurationError>(0));
                    assert(duration_total(s@) == Ok::<nat, DurationError>(acc_true));
                    assert(cap as nat == max_duration_nanos() + 1);
                }
                return if acc < cap {
                    Ok(acc)
                } else {
                    Err(DurationError::TooLarge)
                };
            }
            match split {
                None => {
                    return Err(DurationError::InvalidNumber);
                },
                Some((e, f)) => {
                    let t = term_nanos(&cs, i, e, f, k, 1);
                    let ghost t_true = nanos_of(span(cs@, i, e), span(cs@, f, k), 1);
                    proof {
                        lemma_capped_add(acc_true, t_true, cap as nat);
                        assert(t <= cap);
                        assert(acc <= cap);
                        assert(cap as nat == max_duration_nanos() + 1);
                    }
                    let sum = acc + t;
                    let total = if sum < cap {
                        sum
                    } else {
                        cap
                    };
                    assert(total == min_nat(acc_true + t_true, cap as nat));
                    return if total < cap {
                        Ok(total)
                    } else {
                        Err(DurationError::TooLarge)
                    };
                },
            }
        }
        let c = cs[k];
        proof {
            assert(rest[k - i] == c);
            assert(rest.skip((k - i) as int + 1) =~= cs@.skip(k + 1));
        }
        if k == i {
            return Err(DurationError::MissingNumber);
        }
        match split {
            None => {
                return Err(DurationError::InvalidNumber);
            },
            Some((e, f)) => {
                let unit: u128 = if c == 's' {
                    1
                } else if c == 'm' {
                    60
                } else if c == 'h' {
                    3600
                } else if c == 'd' {
                    86400
                } else if c == 'w' {
                    604800
                } else {
                    return Err(DurationError::UnknownUnit(c));
                };
                let t = term_nanos(&cs, i, e, f, k, unit);
                let ghost t_true = nanos_of(span(cs@, i, e), span(cs@, f, k), unit as nat);
                proof {
                    lemma_capped_add(acc_true, t_true, cap as nat);
                    assert(t <= cap);
                    assert(acc <= cap);
                    assert(t == min_nat(t_true, cap as nat));
                }
                let sum = acc + t;
                acc = if sum < cap {
                    sum
                } else {
                    cap
                };
                proof {
                    acc_true = acc_true + t_true;
                }
                i = k + 1;
            },
        }
    }
}

/// The message for a duration that was refused, `s` being the text given
/// (the total being too large has no message of its own: `Duration` cannot
/// hold it).
pub open spec fn duration_error_text(e: DurationError, s: Seq<char>) -> Seq<char> {
    match e {
        DurationError::MissingNumber => "invalid duration: "@ + s,
        DurationError::InvalidNumber => "invalid number in duration: "@ + s,
        DurationError::UnknownUnit(c) => "unknown unit '"@ + seq![c] + "' in duration"@,
        DurationError::TooLarge => "duration too large: "@ + s,
    }
}

pub fn duration_error_message(e: DurationError, s: &str) -> (r: String)
    ensures
        r@ == duration_error_text(e, s@),
{
    let mut out: Vec<char> = Vec::new();
    match e {
        DurationError::MissingNumber => {
            crate::text::push_str(&mut out, "invalid duration: ");
            crate::text::push_str(&mut out, s);
        },
        DurationError::InvalidNumber => {
            crate::text::push_str(&mut out, "invalid number in duration: ");
            crate::text::push_str(&mut out, s);
        },
        DurationError::UnknownUnit(c) => {
            crate::text::push_str(&mut out, "unknown unit '");
            out.push(c);
            crate::text::push_str(&mut out, "' in duration");
            assert(out@ =~= duration_error_text(e, s@));
        },
        DurationError::TooLarge => {
            crate::text::push_str(&mut out, "duration too large: ");
            crate::text::push_str(&mut out, s);
        },
    }
    crate::text::string_of(&out)
}

} // verus!
