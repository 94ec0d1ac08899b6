//! Decimal digit strings and exact arithmetic on their values.
use vstd::arithmetic::div_mod::*;
use vstd::prelude::*;

verus! {

pub open spec fn is_digit(c: char) -> bool {
    '0' as u32 <= c as u32 && c as u32 <= '9' as u32
}

pub open spec fn digit_value(c: char) -> nat {
    (c as u32 - '0' as u32) as nat
}

pub open spec fn all_digits(s: Seq<char>) -> bool {
    forall|i: int| 0 <= i < s.len() ==> #[trigger] is_digit(s[i])
}

pub open spec fn pow10(n: nat) -> nat
    decreases n,
{
    if n == 0 {
        1
    } else {
        10 * pow10((n - 1) as nat)
    }
}

/// The number that a string of decimal digits denotes.
pub open spec fn digits_value(s: Seq<char>) -> nat
    decreases s.len(),
{
    if s.len() == 0 {
        0
    } else {
        digits_value(s.drop_last()) * 10 + digit_value(s.last())
    }
}

pub open spec fn min_nat(a: nat, b: nat) -> nat {
    if a <= b {
        a
    } else {
        b
    }
}

/// `x / d` rounded to the nearest integer, halves going to the even neighbour.
pub open spec fn div_round_even(x: nat, d: nat) -> nat
    recommends
        d > 0,
{
    let q = x / d;
    let r = x % d;
    if 2 * r > d {
        q + 1
    } else if 2 * r == d {
        q + q % 2
    } else {
        q
    }
}

pub proof fn lemma_pow10_positive(n: nat)
    ensures
        pow10(n) >= 1,
    decreases n,
{
    if n > 0 {
        lemma_pow10_positive((n - 1) as nat);
    }
}

pub proof fn lemma_pow10_add(a: nat, b: nat)
    ensures
        pow10(a + b) == pow10(a) * pow10(b),
    decreases b,
{
    if b > 0 {
        let b1 = (b - 1) as nat;
        lemma_pow10_add(a, b1);
        assert((a + b - 1) as nat == a + b1);
        assert(pow10(a + b) == 10 * pow10(a + b1));
        assert(pow10(b) == 10 * pow10(b1));
        let pa = pow10(a);
        let pb1 = pow10(b1);
        assert(pa * (10 * pb1) == 10 * (pa * pb1)) by (nonlinear_arith);
        assert(pow10(a + b) == 10 * (pa * pb1));
        assert(pow10(a) * pow10(b) == pa * (10 * pb1));
    } else {
        assert(a + b == a);
        assert(pow10(b) == 1);
    }
}

pub proof fn lemma_pow10_monotone(a: nat, b: nat)
    requires
        a <= b,
    ensures
        pow10(a) <= pow10(b),
    decreases b,
{
    if a < b {
        lemma_pow10_monotone(a, (b - 1) as nat);
        lemma_pow10_positive((b - 1) as nat);
    }
}

pub proof fn lemma_digits_value_bound(s: Seq<char>)
    requires
        all_digits(s),
    ensures
        digits_value(s) < pow10(s.len()),
    decreases s.len(),
{
    if s.len() > 0 {
        let t = s.drop_last();
        assert(all_digits(t)) by {
            assert forall|i: int| 0 <= i < t.len() implies #[trigger] is_digit(t[i]) by {
                assert(t[i] == s[i]);
            }
        }
        lemma_digits_value_bound(t);
        assert(is_digit(s[s.len() - 1]));
        let v = digits_value(t);
        let p = pow10(t.len());
        assert(v + 1 <= p);
        assert(v * 10 + 9 < p * 10) by (nonlinear_arith)
            requires
                v + 1 <= p,
        ;
    }
}

/// The value of a concatenation of digit strings.
pub proof fn lemma_digits_value_concat(a: Seq<char>, b: Seq<char>)
    ensures
        digits_value(a + b) == digits_value(a) * pow10(b.len()) + digits_value(b),
    decreases b.len(),
{
    if b.len() == 0 {
        assert(a + b =~= a);
        assert(pow10(b.len()) == 1);
        assert(digits_value(b) == 0);
    } else {
        let bl = b.drop_last();
        assert((a + b).drop_last() =~= a + bl);
        assert((a + b).last() == b.last());
        lemma_digits_value_concat(a, bl);
        let va = digits_value(a);
        let vb = digits_value(bl);
        let p = pow10(bl.len());
        let dl = digit_value(b.last());
        assert(digits_value(a + b) == digits_value(a + bl) * 10 + dl);
        assert(digits_value(b) == vb * 10 + dl);
        assert(pow10(b.len()) == 10 * p);
        assert((va * p + vb) * 10 + dl == va * (10 * p) + (vb * 10 + dl)) by (nonlinear_arith);
        assert(digits_value(a + bl) == va * p + vb);
        assert(digits_value(a + b) == (va * p + vb) * 10 + dl);
    }
}

pub proof fn lemma_digits_value_push(a: Seq<char>, c: char)
    ensures
        digits_value(a.push(c)) == digits_value(a) * 10 + digit_value(c),
{
    assert(a.push(c).drop_last() =~= a);
}

pub proof fn lemma_capped_add(a: nat, b: nat, cap: nat)
    ensures
        min_nat(min_nat(a, cap) + min_nat(b, cap), cap) == min_nat(a + b, cap),
{
}

/// `min(10 * min(v, cap) + d, cap) == min(10 * v + d, cap)`.
pub proof fn lemma_capped_step(v: nat, d: nat, cap: nat)
    ensures
        min_nat(min_nat(v, cap) * 10 + d, cap) == min_nat(v * 10 + d, cap),
{
}

/// One step of the right-to-left division of `k * value` by a power of ten.
pub proof fn lemma_carry_step(d: nat, t: nat, b: nat, k: nat)
    requires
        b > 0,
    ensures
        (d * k * b + t) / (10 * b) == (d * k + t / b) / 10,
        ((d * k * b + t) % (10 * b) == 0) == (t % b == 0 && (d * k + t / b) % 10 == 0),
{
    let c0 = t / b;
    let r1 = t % b;
    lemma_fundamental_div_mod(t as int, b as int);
    let s = d * k + c0;
    let q = s / 10;
    let r2 = s % 10;
    lemma_fundamental_div_mod(s as int, 10);
    let x = d * k * b + t;
    assert(x == q * (10 * b) + (b * r2 + r1)) by (nonlinear_arith)
        requires
            x == d * k * b + t,
            t == b * c0 + r1,
            s == d * k + c0,
            s == 10 * q + r2,
    ;
    assert(b * r2 + r1 < 10 * b) by (nonlinear_arith)
        requires
            r2 < 10,
            r1 < b,
    ;
    assert(0 <= b * r2) by (nonlinear_arith)
        requires
            b > 0,
    ;
    lemma_fundamental_div_mod_converse(x as int, (10 * b) as int, q as int, (b * r2 + r1) as int);
    assert((b * r2 + r1 == 0) == (r2 == 0 && r1 == 0)) by (nonlinear_arith)
        requires
            b > 0,
            r2 >= 0,
            r1 >= 0,
    ;
}

/// `min(v, cap)` for the number denoted by `ds[lo..hi]`.
pub fn digits_value_capped(ds: &Vec<char>, lo: usize, hi: usize, cap: u128) -> (r: u128)
    requires
        lo <= hi <= ds.len(),
        all_digits(ds@.subrange(lo as int, hi as int)),
        cap <= 0x1000_0000_0000_0000_0000_0000_0000_0000u128,
    ensures
        r == min_nat(digits_value(ds@.subrange(lo as int, hi as int)), cap as nat),
{
    let mut x: u128 = 0;
    let mut i = lo;
    while i < hi
        invariant
            lo <= i <= hi <= ds.len(),
            all_digits(ds@.subrange(lo as int, hi as int)),
            cap <= 0x1000_0000_0000_0000_0000_0000_0000_0000u128,
            x == min_nat(digits_value(ds@.subrange(lo as int, i as int)), cap as nat),
        decreases hi - i,
    {
        let c = ds[i];
        assert(is_digit(ds@.subrange(lo as int, hi as int)[i - lo]));
        let d = (c as u32 - '0' as u32) as u128;
        proof {
            let pre = ds@.subrange(lo as int, i as int);
            assert(ds@.subrange(lo as int, i + 1) =~= pre.push(c));
            lemma_digits_value_push(pre, c);
            lemma_capped_step(digits_value(pre), d as nat, cap as nat);
        }
        let y = x * 10 + d;
        x = if y < cap {
            y
        } else {
            cap
        };
        i = i + 1;
    }
    x
}

/// `k * value / 10^n` rounded down, and whether the division is exact, for the
/// number denoted by the `n` digits `ds[lo..hi]`.
pub fn scaled_fraction(ds: &Vec<char>, lo: usize, hi: usize, k: u128) -> (res: (u128, bool))
    requires
        lo <= hi <= ds.len(),
        all_digits(ds@.subrange(lo as int, hi as int)),
        k <= 0x100_0000_0000_0000_0000_0000_0000_0000u128,
    ensures
        ({
            let v: nat = (k as nat) * digits_value(ds@.subrange(lo as int, hi as int));
            let b = pow10((hi - lo) as nat);
            &&& res.0 == v / b
            &&& res.1 == (v % b == 0)
            &&& res.0 <= k
        }),
{
    let mut c: u128 = 0;
    let mut exact = true;
    let mut p = hi;
    proof {
        assert(ds@.subrange(hi as int, hi as int).len() == 0);
    }
    while p > lo
        invariant
            lo <= p <= hi <= ds.len(),
            all_digits(ds@.subrange(lo as int, hi as int)),
            k <= 0x100_0000_0000_0000_0000_0000_0000_0000u128,
            ({
                let v: nat = (k as nat) * digits_value(ds@.subrange(p as int, hi as int));
                let b = pow10((hi - p) as nat);
                &&& c == v / b
                &&& exact == (v % b == 0)
                &&& c <= k
            }),
        decreases p,
    {
        let ch = ds[p - 1];
        assert(is_digit(ds@.subrange(lo as int, hi as int)[p - 1 - lo]));
        let d = (ch as u32 - '0' as u32) as u128;
        let ghost suf = ds@.subrange(p as int, hi as int);
        let ghost m = (hi - p) as nat;
        let ghost b = pow10(m);
        proof {
            assert(ds@.subrange(p - 1, hi as int) =~= seq![ch] + suf);
            lemma_digits_value_concat(seq![ch], suf);
            assert(seq![ch].drop_last() =~= Seq::<char>::empty());
            assert(digits_value(Seq::<char>::empty()) == 0);
            assert(seq![ch].last() == ch);
            assert(digits_value(seq![ch]) == digit_value(ch));
            lemma_pow10_positive(m);
            let t: nat = (k as nat) * digits_value(suf);
            assert(k * digits_value(ds@.subrange(p - 1, hi as int)) == d * k * b + t) by (nonlinear_arith)
                requires
                    digits_value(ds@.subrange(p - 1, hi as int)) == d * b + digits_value(suf),
                    t == k * digits_value(suf),
            ;
            lemma_carry_step(d as nat, t, b, k as nat);
            assert(pow10((hi - (p - 1)) as nat) == 10 * b);
            // the new carry stays within k
            assert(all_digits(suf)) by {
                assert forall|i: int| 0 <= i < suf.len() implies #[trigger] is_digit(suf[i]) by {
                    assert(suf[i] == ds@.subrange(lo as int, hi as int)[i + p - lo]);
                }
            }
            lemma_digits_value_bound(suf);
            assert(d <= 9);
        }
        assert(d * k + c < 10 * k + 10) by (nonlinear_arith)
            requires
                d <= 9,
                c <= k,
        ;
        let s = d * k + c;
        proof {
            let v1: nat = (k as nat) * digits_value(ds@.subrange(p - 1, hi as int));
            let vs = digits_value(ds@.subrange(p - 1, hi as int));
            assert(all_digits(ds@.subrange(p - 1, hi as int))) by {
                assert forall|i: int| 0 <= i < ds@.subrange(p - 1, hi as int).len() implies #[trigger] is_digit(
                    ds@.subrange(p - 1, hi as int)[i],
                ) by {
                    assert(ds@.subrange(p - 1, hi as int)[i] == ds@.subrange(lo as int, hi as int)[i + p - 1 - lo]);
                }
            }
            lemma_digits_value_bound(ds@.subrange(p - 1, hi as int));
            lemma_pow10_positive((hi - (p - 1)) as nat);
            let bb = pow10((hi - (p - 1)) as nat);
            assert(v1 / bb <= k) by {
                assert(v1 <= k * bb) by (nonlinear_arith)
                    requires
                        v1 == k * vs,
                        vs < bb,
                ;
                lemma_div_is_ordered(v1 as int, (k * bb) as int, bb as int);
                vstd::arithmetic::div_mod::lemma_div_by_multiple(k as int, bb as int);
            }
        }
        exact = exact && s % 10 == 0;
        c = s / 10;
        p = p - 1;
    }
    (c, exact)
}


/// The index of the first occurrence of `c` in `s`.
pub open spec fn first_index_of(s: Seq<char>, c: char) -> Option<nat>
    decreases s.len(),
{
    if s.len() == 0 {
        None
    } else if s[0] == c {
        Some(0)
    } else {
        match first_index_of(s.drop_first(), c) {
            Some(i) => Some(i + 1),
            None => None,
        }
    }
}

/// A decimal mantissa: digits, optionally with one `.` among them, and at
/// least one digit in all. Gives the digits before and after the point.
pub open spec fn split_mantissa(s: Seq<char>) -> Option<(Seq<char>, Seq<char>)> {
    match first_index_of(s, '.') {
        None => if s.len() > 0 && all_digits(s) {
            Some((s, Seq::<char>::empty()))
        } else {
            None
        },
        Some(i) => {
            let a = s.take(i as int);
            let b = s.skip(i as int + 1);
            if all_digits(a) && all_digits(b) && a.len() + b.len() > 0 {
                Some((a, b))
            } else {
                None
            }
        },
    }
}

pub proof fn lemma_first_index_of(s: Seq<char>, c: char, k: nat)
    requires
        k <= s.len(),
        forall|i: int| 0 <= i < k ==> s[i] != c,
    ensures
        k < s.len() && s[k as int] == c ==> first_index_of(s, c) == Some(k),
        k == s.len() ==> first_index_of(s, c) is None,
    decreases k,
{
    if k > 0 {
        let t = s.drop_first();
        assert forall|i: int| 0 <= i < k - 1 implies t[i] != c by {
            assert(t[i] == s[i + 1]);
        }
        lemma_first_index_of(t, c, (k - 1) as nat);
    }
}

pub open spec fn span(ds: Seq<char>, lo: usize, hi: usize) -> Seq<char> {
    ds.subrange(lo as int, hi as int)
}

/// Finds the point of a mantissa `ds[lo..hi]`: the digits before it end at
/// `.0`, those after it start at `.1` (both `hi` when there is no point).
pub fn split_mantissa_range(ds: &Vec<char>, lo: usize, hi: usize) -> (r: Option<(usize, usize)>)
    requires
        lo <= hi <= ds.len(),
    ensures
        match r {
            None => split_mantissa(span(ds@, lo, hi)) is None,
            Some((e, f)) => {
                &&& lo <= e <= f <= hi
                &&& split_mantissa(span(ds@, lo, hi)) == Some((span(ds@, lo, e), span(ds@, f, hi)))
            },
        },
{
    let ghost s = span(ds@, lo, hi);
    let mut k = lo;
    while k < hi && ds[k] != '.'
        invariant
            lo <= k <= hi <= ds.len(),
            s == span(ds@, lo, hi),
            forall|i: int| 0 <= i < k - lo ==> s[i] != '.',
        decreases hi - k,
    {
        assert(s[k - lo] == ds@[k as int]);
        k = k + 1;
    }
    proof {
        assert forall|i: int| 0 <= i < (k - lo) as nat implies s[i] != '.' by {}
        if k < hi {
            assert(s[k - lo] == ds@[k as int]);
        }
        lemma_first_index_of(s, '.', (k - lo) as nat);
    }
    let (e, f) = if k < hi {
        (k, k + 1)
    } else {
        (hi, hi)
    };
    // check that both parts are digits
    let mut i = lo;
    while i < e
        invariant
            lo <= i <= e <= f <= hi <= ds.len(),
            lo <= k <= hi,
            s == span(ds@, lo, hi),
            k < hi ==> e == k && f == k + 1 && s[k - lo] == '.',
            k >= hi ==> e == hi && f == hi,
            k < hi ==> first_index_of(s, '.') == Some((k - lo) as nat),
            k >= hi ==> first_index_of(s, '.') is None,
            forall|j: int| lo <= j < i ==> is_digit(#[trigger] ds@[j]),
        decreases e - i,
    {
        let v = ds[i] as u32;
        if v < '0' as u32 || v > '9' as u32 {
            proof {
                assert(s[i - lo] == ds@[i as int]);
                assert(!is_digit(ds@[i as int]));
                if k < hi {
                    assert(s.take((k - lo) as int)[i - lo] == s[i - lo]);
                    assert(!is_digit(s.take((k - lo) as int)[i - lo]));
                    assert(!all_digits(s.take((k - lo) as int)));
                } else {
                    assert(!is_digit(s[i - lo]));
                    assert(!all_digits(s));
                }
            }
            return None;
        }
        i = i + 1;
    }
    let mut i = f;
    while i < hi
        invariant
            lo <= e <= f <= i <= hi <= ds.len(),
            lo <= k <= hi,
            s == span(ds@, lo, hi),
            k < hi ==> e == k && f == k + 1 && s[k - lo] == '.',
            k >= hi ==> e == hi && f == hi,
            k < hi ==> first_index_of(s, '.') == Some((k - lo) as nat),
            k >= hi ==> first_index_of(s, '.') is None,
            forall|j: int| lo <= j < e ==> is_digit(#[trigger] ds@[j]),
            forall|j: int| f <= j < i ==> is_digit(#[trigger] ds@[j]),
        decreases hi - i,
    {
        let v = ds[i] as u32;
        if v < '0' as u32 || v > '9' as u32 {
            proof {
                assert(s[i - lo] == ds@[i as int]);
                assert(!is_digit(ds@[i as int]));
                assert(s.skip((k - lo) as int + 1)[i - f] == s[i - lo]);
                assert(!is_digit(s.skip((k - lo) as int + 1)[i - f]));
                assert(!all_digits(s.skip((k - lo) as int + 1)));
            }
            return None;
        }
        i = i + 1;
    }
    if e - lo + (hi - f) == 0 {
        proof {
            if k < hi {
                assert(s.take((k - lo) as int).len() + s.skip((k - lo) as int + 1).len() == 0);
            } else {
                assert(s.len() == 0);
            }
        }
        return None;
    }
    proof {
        assert(all_digits(span(ds@, lo, e))) by {
            assert forall|j: int| 0 <= j < span(ds@, lo, e).len() implies #[trigger] is_digit(
                span(ds@, lo, e)[j],
            ) by {
                assert(span(ds@, lo, e)[j] == ds@[lo + j]);
            }
        }
        assert(all_digits(span(ds@, f, hi))) by {
            assert forall|j: int| 0 <= j < span(ds@, f, hi).len() implies #[trigger] is_digit(
                span(ds@, f, hi)[j],
            ) by {
                assert(span(ds@, f, hi)[j] == ds@[f + j]);
            }
        }
        if k < hi {
            assert(s.take((k - lo) as int) =~= span(ds@, lo, e));
            assert(s.skip((k - lo) as int + 1) =~= span(ds@, f, hi));
        } else {
            assert(s =~= span(ds@, lo, e));
            assert(span(ds@, f, hi) =~= Seq::<char>::empty());
        }
    }
    Some((e, f))
}

/// The first `c` in `v[lo..hi]`, or `hi`.
pub fn find_char(v: &Vec<char>, lo: usize, hi: usize, c: char) -> (r: usize)
    requires
        lo <= hi <= v.len(),
    ensures
        lo <= r <= hi,
        r < hi ==> first_index_of(span(v@, lo, hi), c) == Some((r - lo) as nat),
        r == hi ==> first_index_of(span(v@, lo, hi), c) is None,
{
    let ghost s = span(v@, lo, hi);
    let mut k = lo;
    while k < hi && v[k] != c
        invariant
            lo <= k <= hi <= v.len(),
            s == span(v@, lo, hi),
            forall|i: int| 0 <= i < k - lo ==> s[i] != c,
        decreases hi - k,
    {
        assert(s[k - lo] == v@[k as int]);
        k = k + 1;
    }
    proof {
        if k < hi {
            assert(s[k - lo] == v@[k as int]);
        }
        lemma_first_index_of(s, c, (k - lo) as nat);
    }
    k
}

} // verus!
