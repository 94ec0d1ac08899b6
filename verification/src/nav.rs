//! Directory jumping by "frecency": the database of visited directories and
//! the queries on it.
use crate::binary::{
    dadd, dadd_exec, ddiv, ddiv_exec, dmul, dmul_exec, is_normal, lemma_bit_len_between, lemma_dadd,
    lemma_ddiv, lemma_dmul, lemma_nearest, lemma_pow2_add, lemma_pow2_positive, lemma_pow2_values, bit_len, lemma_bit_len, nearest, nearest_exec, pair_of,
    round_to_u64, round_to_u64_exec,
};
use crate::decimal::{find_char, first_index_of, min_nat, span};
use crate::monotone::{
    lemma_bit_len_shift, lemma_dadd_monotone, lemma_ddiv_antitone, lemma_dmul_monotone, lemma_nearest_magnitude,
    lemma_nearest_monotone, lemma_round_even_exact, lemma_round_to_u64_monotone, magnitude, round53,
};
use crate::size::{floor_times, pow2, u64_max};
use crate::pattern::{compile_regex, regex_accepts, regex_escape, regex_escaped, regex_finds, regex_is_match};
use crate::text::{chars_of, decimal_text, push_decimal, push_str, string_of, string_of_range, trim, trim_bounds};
use crate::trash::{parse_unsigned, unsigned_value};
use vstd::prelude::*;

verus! {

/// A visited directory: its path, how often it was visited and when last
/// (seconds since the epoch).
#[derive(Debug, Clone)]
pub struct NavEntry {
    pub path: String,
    pub rank: u64,
    pub time: u64,
}

impl NavEntry {
    pub fn duplicate(&self) -> (r: NavEntry)
        ensures
            r == *self,
    {
        NavEntry { path: self.path.clone(), rank: self.rank, time: self.time }
    }
}

/// Beyond this total of ranks, every rank is aged.
pub const MAX_SCORE: u64 = 9000;

/// Where the database lives: `$NAV_DATA` when it is set, else `.nav` in the
/// home directory; `None` when neither is known.
pub open spec fn data_path_of(nav_data: Option<Seq<char>>, home: Option<Seq<char>>) -> Option<Seq<char>> {
    match nav_data {
        Some(v) => Some(v),
        None => match home {
            Some(h) => Some(h + "/.nav"@),
            None => None,
        },
    }
}

pub fn data_path(nav_data: Option<String>, home: Option<String>) -> (r: Option<String>)
    ensures
        match r {
            Some(p) => data_path_of(opt_chars(nav_data), opt_chars(home)) == Some(p@),
            None => data_path_of(opt_chars(nav_data), opt_chars(home)) is None,
        },
{
    match nav_data {
        Some(v) => Some(v),
        None => match home {
            Some(h) => {
                let mut out: Vec<char> = Vec::new();
                push_str(&mut out, h.as_str());
                push_str(&mut out, "/.nav");
                Some(string_of(&out))
            },
            None => None,
        },
    }
}

pub open spec fn opt_chars(o: Option<String>) -> Option<Seq<char>> {
    match o {
        Some(s) => Some(s@),
        None => None,
    }
}

// ── frecency ────────────────────────────────────────────────────
/// The score of a directory visited `rank` times, last `age` seconds ago:
/// `10000 * rank * (3.75 / (0.0001 * age + 1 + 0.25))` evaluated in
/// doubles from left to right, each operation rounded to the nearest double,
/// and the result rounded to the nearest integer (halves away from zero) and
/// kept to `u64`. The constants as doubles: `0.0001` is `7378697629483821 *
/// 2^-66`, `1` is `2^52 * 2^-52`, `0.25` is `2^52 * 2^-54`, `3.75` is
/// `8444249301319680 * 2^-51` and `10000` is `5497558138880000 * 2^-39`.
pub open spec fn frecency_of(rank: nat, age: nat) -> nat {
    let q = ddiv((8444249301319680, -51), age_divisor(age));
    round_to_u64(dmul(rank_weight(rank), q))
}

/// `0.0001 * age + 1 + 0.25` in doubles.
pub open spec fn age_divisor(age: nat) -> (nat, int) {
    let a = dmul((7378697629483821, -66), nearest(age, 0));
    let b = dadd(a, (4503599627370496, -52));
    dadd(b, (4503599627370496, -54))
}

/// `10000 * rank` in doubles.
pub open spec fn rank_weight(rank: nat) -> (nat, int) {
    dmul((5497558138880000, -39), nearest(rank, 0))
}

proof fn lemma_cast_exponent(n: nat)
    requires
        n < 0x1_0000_0000_0000_0000,
    ensures
        is_normal(nearest(n, 0)),
        n > 0 ==> nearest(n, 0).0 > 0 && -52 <= nearest(n, 0).1 <= 12,
        n == 0 ==> nearest(n, 0) == (0nat, 0int),
{
    lemma_nearest(n, 0);
    lemma_pow2_values();
    if n > 0 {
        assert(pow2(0) == 1);
        lemma_bit_len_between(n, 0, 64);
    }
}

/// The score of a directory visited `rank` times, last `age_secs` seconds
/// ago (see `frecency_of`).
pub fn frecency(rank: u64, age_secs: u64) -> (r: u64)
    ensures
        r == frecency_of(rank as nat, age_secs as nat),
{
    proof {
        lemma_pow2_values();
    }
    let dx = nearest_exec(age_secs as u128, 0);
    proof {
        lemma_cast_exponent(age_secs as nat);
    }
    let c1: (u64, i32) = (7378697629483821, -66);
    let a = dmul_exec(c1, dx);
    proof {
        lemma_dmul(pair_of(c1), pair_of(dx));
    }
    let one: (u64, i32) = (4503599627370496, -52);
    let b = dadd_exec(a, one);
    proof {
        if a.0 > 0 {
            lemma_dadd(pair_of(a), pair_of(one));
        }
    }
    let quarter: (u64, i32) = (4503599627370496, -54);
    let c = dadd_exec(b, quarter);
    proof {
        lemma_dadd(pair_of(b), pair_of(quarter));
    }
    let numerator: (u64, i32) = (8444249301319680, -51);
    let q = ddiv_exec(numerator, c);
    proof {
        lemma_ddiv(pair_of(numerator), pair_of(c));
    }
    let n = nearest_exec(rank as u128, 0);
    proof {
        lemma_cast_exponent(rank as nat);
    }
    let ten_thousand: (u64, i32) = (5497558138880000, -39);
    let scaled = dmul_exec(ten_thousand, n);
    proof {
        lemma_dmul(pair_of(ten_thousand), pair_of(n));
    }
    let product = dmul_exec(scaled, q);
    proof {
        lemma_dmul(pair_of(scaled), pair_of(q));
    }
    round_to_u64_exec(product)
}

/// The divisor of the score is a positive double, between `1.25` and a
/// few times `2^64 * 0.0001`.
proof fn lemma_age_divisor(age: u64)
    ensures
        is_normal(age_divisor(age as nat)),
        age_divisor(age as nat).0 > 0,
        -52 <= age_divisor(age as nat).1 <= 4,
        is_normal(dmul((7378697629483821, -66), nearest(age as nat, 0))),
        is_normal(dadd(dmul((7378697629483821, -66), nearest(age as nat, 0)), (4503599627370496, -52))),
        dadd(dmul((7378697629483821, -66), nearest(age as nat, 0)), (4503599627370496, -52)).0 > 0,
        -52 <= dadd(dmul((7378697629483821, -66), nearest(age as nat, 0)), (4503599627370496, -52)).1,
        dmul((7378697629483821, -66), nearest(age as nat, 0)).1 >= -66,
{
    lemma_pow2_values();
    lemma_cast_exponent(age as nat);
    let dx = nearest(age as nat, 0);
    let a = dmul((7378697629483821, -66), dx);
    lemma_dmul((7378697629483821, -66), dx);
    let b = dadd(a, (4503599627370496, -52));
    if a.0 > 0 {
        lemma_dadd(a, (4503599627370496, -52));
    }
    lemma_dadd(b, (4503599627370496, -54));
}

/// The weight of a visit count is zero or a double of exponent `-39` to `27`.
proof fn lemma_rank_weight(rank: u64)
    ensures
        is_normal(rank_weight(rank as nat)),
        rank_weight(rank as nat).1 >= -39,
        rank_weight(rank as nat).1 <= 27,
{
    lemma_pow2_values();
    lemma_cast_exponent(rank as nat);
    lemma_dmul((5497558138880000, -39), nearest(rank as nat, 0));
}

/// A score keeps the order of the visit counts and reverses that of the
/// ages: a directory visited at least as often, and at least as recently,
/// scores at least as high.
pub proof fn lemma_frecency_monotone(rank1: u64, age1: u64, rank2: u64, age2: u64)
    requires
        rank1 <= rank2,
        age2 <= age1,
    ensures
        frecency_of(rank1 as nat, age1 as nat) <= frecency_of(rank2 as nat, age2 as nat),
{
    lemma_pow2_values();
    let c1: (nat, int) = (7378697629483821, -66);
    let one: (nat, int) = (4503599627370496, -52);
    let quarter: (nat, int) = (4503599627370496, -54);
    let num: (nat, int) = (8444249301319680, -51);
    let ten: (nat, int) = (5497558138880000, -39);
    lemma_pow2_positive(1000);
    // the older visit has the smaller (or the same) quotient
    let x1 = nearest(age1 as nat, 0);
    let x2 = nearest(age2 as nat, 0);
    lemma_cast_exponent(age1 as nat);
    lemma_cast_exponent(age2 as nat);
    assert((age2 as nat) * pow2(1000) <= (age1 as nat) * pow2(1000)) by (nonlinear_arith)
        requires
            age2 <= age1,
    ;
    lemma_nearest_monotone(age2 as nat, 0, age1 as nat, 0);
    lemma_dmul_monotone(c1, x2, c1, x1);
    lemma_age_divisor(age1);
    lemma_age_divisor(age2);
    let a1 = dmul(c1, x1);
    let a2 = dmul(c1, x2);
    lemma_dadd_monotone(a2, a1, one);
    lemma_dadd_monotone(dadd(a2, one), dadd(a1, one), quarter);
    let d1 = age_divisor(age1 as nat);
    let d2 = age_divisor(age2 as nat);
    lemma_ddiv_antitone(num, d2, d1);
    let q1 = ddiv(num, d1);
    let q2 = ddiv(num, d2);
    lemma_ddiv(num, d1);
    lemma_ddiv(num, d2);
    // the more visited directory has the larger (or the same) weight
    let n1 = nearest(rank1 as nat, 0);
    let n2 = nearest(rank2 as nat, 0);
    lemma_cast_exponent(rank1 as nat);
    lemma_cast_exponent(rank2 as nat);
    assert((rank1 as nat) * pow2(1000) <= (rank2 as nat) * pow2(1000)) by (nonlinear_arith)
        requires
            rank1 <= rank2,
    ;
    lemma_nearest_monotone(rank1 as nat, 0, rank2 as nat, 0);
    lemma_dmul_monotone(ten, n1, ten, n2);
    lemma_rank_weight(rank1);
    lemma_rank_weight(rank2);
    let w1 = rank_weight(rank1 as nat);
    let w2 = rank_weight(rank2 as nat);
    lemma_dmul_monotone(w1, q1, w2, q2);
    lemma_dmul(w1, q1);
    lemma_dmul(w2, q2);
    lemma_round_to_u64_monotone(dmul(w1, q1), dmul(w2, q2));
}

// ── the database file ───────────────────────────────────────────
/// The pieces of `s` between the occurrences of `c`, as `str::split` gives them.
pub open spec fn split_on(s: Seq<char>, c: char) -> Seq<Seq<char>>
    decreases s.len(),
{
    match first_index_of(s, c) {
        None => seq![s],
        Some(i) => {
            if i < s.len() {
                seq![s.take(i as int)] + split_on(s.skip(i as int + 1), c)
            } else {
                seq![s]
            }
        },
    }
}

proof fn lemma_first_index_bound(s: Seq<char>, c: char)
    ensures
        first_index_of(s, c) matches Some(i) ==> i < s.len() && s[i as int] == c,
    decreases s.len(),
{
    if s.len() > 0 && s[0] != c {
        lemma_first_index_bound(s.drop_first(), c);
    }
}

proof fn lemma_split_on_step(s: Seq<char>, c: char)
    ensures
        split_on(s, c).len() >= 1,
        first_index_of(s, c) is None ==> split_on(s, c) == seq![s],
        first_index_of(s, c) matches Some(i) ==> split_on(s, c) == seq![s.take(i as int)] + split_on(
            s.skip(i as int + 1),
            c,
        ),
{
    lemma_first_index_bound(s, c);
}

/// A line of the database, `path|rank|time`: the line without white space at
/// its ends, split at `|`, needs three pieces at least, of which the second
/// and third read as `u64`.
pub open spec fn line_entry(line: Seq<char>) -> Option<(Seq<char>, nat, nat)> {
    let t = trim(line);
    let parts = split_on(t, '|');
    if t.len() == 0 || parts.len() < 3 {
        None
    } else {
        match (
            unsigned_value(parts[1], 0xFFFF_FFFF_FFFF_FFFF),
            unsigned_value(parts[2], 0xFFFF_FFFF_FFFF_FFFF),
        ) {
            (Some(r), Some(tm)) => Some((parts[0], r, tm)),
            _ => None,
        }
    }
}

/// What loading the database reads back of what saving it wrote: the line
/// written for an entry reads as that entry, for a path without `|` that
/// does not start with white space.
pub proof fn lemma_entry_line_round_trip(e: NavEntry)
    requires
        !e.path@.contains('|'),
        e.path@.len() == 0 || !crate::text::is_white_space(e.path@[0]),
    ensures
        line_entry(entry_line_text(e)) == Some((e.path@, e.rank as nat, e.time as nat)),
        line_entry(entry_line_body(e)) == Some((e.path@, e.rank as nat, e.time as nat)),
{
    let p = e.path@;
    let d1 = decimal_text(e.rank as nat);
    let d2 = decimal_text(e.time as nat);
    crate::trash::lemma_decimal_text(e.rank as nat);
    crate::trash::lemma_decimal_text(e.time as nat);
    let line = entry_line_text(e);
    let t = p + seq!['|'] + d1 + seq!['|'] + d2;
    assert(line =~= t.push('\n'));
    // white space: none at the start, the new line at the end
    assert(t[0] == (if p.len() > 0 { p[0] } else { '|' }));
    assert(!crate::text::is_white_space(t[0]));
    assert(crate::text::trim_start(line) == line);
    assert(crate::text::is_white_space(line.last()));
    assert(line.drop_last() =~= t);
    assert(t.last() == d2.last());
    assert(crate::decimal::is_digit(d2[d2.len() - 1]));
    assert(!crate::text::is_white_space(t.last()));
    assert(crate::text::trim_end(t) == t);
    assert(crate::text::trim(line) == t);
    assert(crate::text::trim_start(t) == t);
    assert(t == entry_line_body(e));
    // the pieces between the bars
    assert forall|i: int| 0 <= i < p.len() implies t[i] != '|' by {
        assert(t[i] == p[i]);
        if p[i] == '|' {
            assert(p.contains('|'));
        }
    }
    assert(t[p.len() as int] == '|');
    crate::decimal::lemma_first_index_of(t, '|', p.len());
    assert(t.take(p.len() as int) =~= p);
    let r1 = t.skip(p.len() as int + 1);
    assert(r1 =~= d1 + seq!['|'] + d2);
    assert forall|i: int| 0 <= i < d1.len() implies r1[i] != '|' by {
        assert(r1[i] == d1[i]);
        assert(crate::decimal::is_digit(d1[i]));
    }
    assert(r1[d1.len() as int] == '|');
    crate::decimal::lemma_first_index_of(r1, '|', d1.len());
    assert(r1.take(d1.len() as int) =~= d1);
    let r2 = r1.skip(d1.len() as int + 1);
    assert(r2 =~= d2);
    assert forall|i: int| 0 <= i < d2.len() implies r2[i] != '|' by {
        assert(crate::decimal::is_digit(d2[i]));
    }
    crate::decimal::lemma_first_index_of(r2, '|', d2.len());
    assert(split_on(r2, '|') == seq![d2]);
    assert(split_on(r1, '|') == seq![d1] + seq![d2]);
    assert(split_on(t, '|') =~= seq![p, d1, d2]);
    assert(d1[0] != '+' && d2[0] != '+') by {
        assert(crate::decimal::is_digit(d1[0]));
        assert(crate::decimal::is_digit(d2[0]));
    }
}

/// The entries read from `lines`, in order, each line that reads as one
/// (see `line_entry`) giving one.
pub open spec fn parse_lines(lines: Seq<Seq<char>>) -> Seq<(Seq<char>, nat, nat)>
    decreases lines.len(),
{
    if lines.len() == 0 {
        Seq::empty()
    } else {
        (match line_entry(lines[0]) {
            Some(x) => seq![x],
            None => Seq::empty(),
        }) + parse_lines(lines.drop_first())
    }
}

/// The entries as plain values.
pub open spec fn entries_view(s: Seq<NavEntry>) -> Seq<(Seq<char>, nat, nat)> {
    s.map_values(|e: NavEntry| (e.path@, e.rank as nat, e.time as nat))
}

/// The text of a database with at least one entry: the first line, then the rest.
proof fn lemma_entries_text_first(s: Seq<NavEntry>)
    requires
        s.len() > 0,
    ensures
        entries_text(s) == entry_line_text(s[0]) + entries_text(s.drop_first()),
    decreases s.len(),
{
    if s.len() == 1 {
        assert(s.drop_first().len() == 0);
        assert(s.drop_last().len() == 0);
        assert(entries_text(s.drop_last()) == Seq::<char>::empty());
        assert(entries_text(s) =~= entry_line_text(s[0]) + Seq::<char>::empty());
    } else {
        lemma_entries_text_first(s.drop_last());
        assert(s.drop_last().drop_first() =~= s.drop_first().drop_last());
        assert(s.drop_first().last() == s.last());
        assert(s.drop_last()[0] == s[0]);
        assert(entries_text(s.drop_first()) == entries_text(s.drop_first().drop_last()) + entry_line_text(s.last()));
    }
}

/// What loading the database reads back of what saving it wrote: the text
/// written for entries whose paths hold no `|` and no line break and do not
/// start with white space, split into lines, reads as those entries.
pub proof fn lemma_entries_round_trip(s: Seq<NavEntry>)
    requires
        forall|i: int| 0 <= i < s.len() ==> {
            &&& !(#[trigger] s[i]).path@.contains('|')
            &&& !s[i].path@.contains('\n')
            &&& (s[i].path@.len() == 0 || !crate::text::is_white_space(s[i].path@[0]))
        },
    ensures
        parse_lines(split_on(entries_text(s), '\n')) == entries_view(s),
    decreases s.len(),
{
    if s.len() == 0 {
        assert(first_index_of(Seq::<char>::empty(), '\n') is None);
        lemma_split_on_step(Seq::<char>::empty(), '\n');
        let ls = split_on(entries_text(s), '\n');
        assert(ls == seq![Seq::<char>::empty()]);
        assert(crate::text::trim_start(Seq::<char>::empty()) == Seq::<char>::empty());
        assert(crate::text::trim_end(Seq::<char>::empty()) == Seq::<char>::empty());
        assert(line_entry(Seq::<char>::empty()) is None);
        assert(ls.drop_first().len() == 0);
        assert(ls[0] == Seq::<char>::empty());
        assert(parse_lines(ls.drop_first()) == Seq::<(Seq<char>, nat, nat)>::empty());
        assert(parse_lines(ls) =~= Seq::<(Seq<char>, nat, nat)>::empty());
        assert(entries_view(s) =~= Seq::<(Seq<char>, nat, nat)>::empty());
    } else {
        let e = s[0];
        let rest = s.drop_first();
        assert forall|i: int| 0 <= i < rest.len() implies {
            &&& !(#[trigger] rest[i]).path@.contains('|')
            &&& !rest[i].path@.contains('\n')
            &&& (rest[i].path@.len() == 0 || !crate::text::is_white_space(rest[i].path@[0]))
        } by {
            assert(rest[i] == s[i + 1]);
        }
        lemma_entries_round_trip(rest);
        lemma_entries_text_first(s);
        lemma_entry_line_round_trip(e);
        let body = entry_line_body(e);
        let text = entries_text(s);
        let d1 = decimal_text(e.rank as nat);
        let d2 = decimal_text(e.time as nat);
        crate::trash::lemma_decimal_text(e.rank as nat);
        crate::trash::lemma_decimal_text(e.time as nat);
        assert(text =~= body + seq!['\n'] + entries_text(rest));
        // the first line break ends the first line
        assert forall|i: int| 0 <= i < body.len() implies text[i] != '\n' by {
            assert(text[i] == body[i]);
            let p = e.path@;
            if i < p.len() {
                assert(body[i] == p[i]);
                if p[i] == '\n' {
                    assert(p.contains('\n'));
                }
            } else if i == p.len() {
            } else if i < p.len() + 1 + d1.len() {
                assert(body[i] == d1[i - p.len() - 1]);
                assert(crate::decimal::is_digit(d1[i - p.len() - 1]));
            } else if i == p.len() + 1 + d1.len() {
            } else {
                assert(body[i] == d2[i - p.len() - 2 - d1.len()]);
                assert(crate::decimal::is_digit(d2[i - p.len() - 2 - d1.len()]));
            }
        }
        assert(text[body.len() as int] == '\n');
        crate::decimal::lemma_first_index_of(text, '\n', body.len());
        lemma_split_on_step(text, '\n');
        assert(text.take(body.len() as int) =~= body);
        assert(text.skip(body.len() as int + 1) =~= entries_text(rest));
        let ls = split_on(text, '\n');
        assert(ls[0] == body);
        assert(ls.drop_first() =~= split_on(entries_text(rest), '\n'));
        assert(entries_view(s) =~= seq![(e.path@, e.rank as nat, e.time as nat)] + entries_view(rest));
    }
}

/// Reads the text of a database: its lines, split at line breaks, each line
/// that reads as an entry giving one (see `parse_lines`); whether the
/// directories still exist is for the caller to check.
pub fn parse_entries(text: &str) -> (r: Vec<NavEntry>)
    ensures
        entries_view(r@) == parse_lines(split_on(text@, '\n')),
{
    let cs = chars_of(text);
    let n = cs.len();
    let mut out: Vec<NavEntry> = Vec::new();
    let mut start: usize = 0;
    proof {
        assert(cs@.skip(0) =~= cs@);
        assert(entries_view(out@) =~= Seq::<(Seq<char>, nat, nat)>::empty());
    }
    loop
        invariant
            start <= n == cs.len(),
            cs@ == text@,
            entries_view(out@) + parse_lines(split_on(cs@.skip(start as int), '\n')) == parse_lines(
                split_on(text@, '\n'),
            ),
        decreases n - start,
    {
        let k = find_char(&cs, start, n, '\n');
        let ghost rest = cs@.skip(start as int);
        proof {
            assert(span(cs@, start, n) =~= rest);
            lemma_split_on_step(rest, '\n');
        }
        let piece = string_of_range(&cs, start, k);
        let parsed = parse_entry_line(piece.as_str());
        let ghost old_view = entries_view(out@);
        proof {
            if k < n {
                assert(rest.take((k - start) as int) =~= piece@);
                assert(rest.skip((k - start) as int + 1) =~= cs@.skip(k + 1));
            } else {
                assert(rest =~= piece@);
            }
            let ls = split_on(rest, '\n');
            assert(ls[0] == piece@);
        }
        match parsed {
            Some(e) => {
                out.push(e);
                proof {
                    assert(entries_view(out@) =~= old_view + seq![(out@.last().path@, out@.last().rank as nat, out@.last().time as nat)]);
                }
            },
            None => {},
        }
        proof {
            let ls = split_on(rest, '\n');
            assert(parse_lines(ls) == (match line_entry(ls[0]) {
                Some(x) => seq![x],
                None => Seq::empty(),
            }) + parse_lines(ls.drop_first()));
        }
        if k >= n {
            proof {
                let ls = split_on(rest, '\n');
                assert(ls.drop_first().len() == 0);
                assert(parse_lines(ls.drop_first()) =~= Seq::<(Seq<char>, nat, nat)>::empty());
                assert(entries_view(out@) =~= old_view + parse_lines(ls));
            }
            return out;
        }
        proof {
            let ls = split_on(rest, '\n');
            assert(ls.drop_first() == split_on(cs@.skip(k + 1), '\n'));
            assert(entries_view(out@) + parse_lines(split_on(cs@.skip(k + 1), '\n')) =~= old_view + parse_lines(ls));
        }
        start = k + 1;
    }
}

/// Reads a line of the database; whether the directory still exists is
/// for the caller to check.
pub fn parse_entry_line(line: &str) -> (r: Option<NavEntry>)
    ensures
        match r {
            Some(e) => line_entry(line@) == Some((e.path@, e.rank as nat, e.time as nat)),
            None => line_entry(line@) is None,
        },
{
    let cs = chars_of(line);
    let (a, b) = trim_bounds(&cs, 0, cs.len());
    proof {
        assert(cs@.subrange(0, cs.len() as int) =~= line@);
    }
    let ghost t = span(cs@, a, b);
    if a == b {
        return None;
    }
    let p1 = find_char(&cs, a, b, '|');
    proof {
        lemma_split_on_step(t, '|');
    }
    if p1 == b {
        return None;
    }
    let p2 = find_char(&cs, p1 + 1, b, '|');
    let ghost t1 = t.skip((p1 - a) as int + 1);
    proof {
        assert(t1 =~= span(cs@, (p1 + 1) as usize, b));
        lemma_split_on_step(t1, '|');
        assert(t.take((p1 - a) as int) =~= span(cs@, a, p1));
    }
    if p2 == b {
        proof {
            assert(split_on(t, '|').len() == 2);
        }
        return None;
    }
    let p3 = find_char(&cs, p2 + 1, b, '|');
    let ghost t2 = t1.skip((p2 - (p1 + 1)) as int + 1);
    proof {
        assert(t2 =~= span(cs@, (p2 + 1) as usize, b));
        lemma_split_on_step(t2, '|');
        assert(t1.take((p2 - (p1 + 1)) as int) =~= span(cs@, (p1 + 1) as usize, p2));
        if p3 < b {
            assert(t2.take((p3 - (p2 + 1)) as int) =~= span(cs@, (p2 + 1) as usize, p3));
        } else {
            assert(t2 =~= span(cs@, (p2 + 1) as usize, p3));
        }
        let parts = split_on(t, '|');
        assert(parts == seq![span(cs@, a, p1)] + split_on(t1, '|'));
        assert(split_on(t1, '|') == seq![span(cs@, (p1 + 1) as usize, p2)] + split_on(t2, '|'));
        assert(split_on(t2, '|')[0] == span(cs@, (p2 + 1) as usize, p3));
        assert(parts[0] == span(cs@, a, p1));
        assert(parts[1] == split_on(t1, '|')[0]);
        assert(parts[2] == split_on(t1, '|')[1]);
        assert(parts[1] == span(cs@, (p1 + 1) as usize, p2));
        assert(parts[2] == span(cs@, (p2 + 1) as usize, p3));
        assert(parts.len() >= 3);
    }
    let rank = parse_unsigned(&cs, p1 + 1, p2, 0xFFFF_FFFF_FFFF_FFFFu128);
    let time = parse_unsigned(&cs, p2 + 1, p3, 0xFFFF_FFFF_FFFF_FFFFu128);
    match (rank, time) {
        (Some(r), Some(tm)) => Some(
            NavEntry { path: string_of_range(&cs, a, p1), rank: r as u64, time: tm as u64 },
        ),
        _ => None,
    }
}

/// The database file: a line `path|rank|time` for each entry.
/// The line written for an entry, without its line break.
pub open spec fn entry_line_body(e: NavEntry) -> Seq<char> {
    e.path@ + seq!['|'] + decimal_text(e.rank as nat) + seq!['|'] + decimal_text(e.time as nat)
}

pub open spec fn entry_line_text(e: NavEntry) -> Seq<char> {
    e.path@ + seq!['|'] + decimal_text(e.rank as nat) + seq!['|'] + decimal_text(e.time as nat)
        + seq!['\n']
}

pub open spec fn entries_text(s: Seq<NavEntry>) -> Seq<char>
    decreases s.len(),
{
    if s.len() == 0 {
        Seq::empty()
    } else {
        entries_text(s.drop_last()) + entry_line_text(s.last())
    }
}

pub fn format_entries(entries: &Vec<NavEntry>) -> (r: String)
    ensures
        r@ == entries_text(entries@),
{
    let mut out: Vec<char> = Vec::new();
    let mut i: usize = 0;
    while i < entries.len()
        invariant
            i <= entries.len(),
            out@ == entries_text(entries@.take(i as int)),
        decreases entries.len() - i,
    {
        let e = &entries[i];
        let ghost before = out@;
        push_str(&mut out, e.path.as_str());
        out.push('|');
        push_decimal(&mut out, e.rank as u128);
        out.push('|');
        push_decimal(&mut out, e.time as u128);
        out.push('\n');
        proof {
            assert(entries@.take(i + 1).drop_last() =~= entries@.take(i as int));
            assert(out@ =~= before + entry_line_text(entries@[i as int]));
        }
        i = i + 1;
    }
    assert(entries@.take(entries.len() as int) =~= entries@);
    string_of(&out)
}

// ── recording a visit ───────────────────────────────────────────
/// Whether a visited directory is left out of the database: the home
/// directory, `/`, and those that start with one of the `:`-separated
/// prefixes of `$NAV_EXCLUDE_DIRS`.
pub open spec fn excluded(path: Seq<char>, home: Seq<char>, exclude: Option<Seq<char>>) -> bool {
    path == home || path == seq!['/'] || match exclude {
        Some(x) => exists|k: int|
            0 <= k < split_on(x, ':').len() && #[trigger] starts_with(path, split_on(x, ':')[k]),
        None => false,
    }
}

pub open spec fn starts_with(s: Seq<char>, prefix: Seq<char>) -> bool {
    prefix.len() <= s.len() && s.take(prefix.len() as int) == prefix
}

fn range_starts(v: &Vec<char>, p: &Vec<char>, lo: usize, hi: usize) -> (r: bool)
    requires
        lo <= hi <= p.len(),
    ensures
        r == starts_with(v@, span(p@, lo, hi)),
{
    let n = hi - lo;
    if n > v.len() {
        return false;
    }
    let mut i: usize = 0;
    while i < n
        invariant
            lo <= hi <= p.len(),
            n == hi - lo,
            n <= v.len(),
            i <= n,
            forall|j: int| 0 <= j < i ==> v@[j] == p@[lo + j],
        decreases n - i,
    {
        if v[i] != p[lo + i] {
            assert(v@.take(n as int)[i as int] != span(p@, lo, hi)[i as int]);
            return false;
        }
        i = i + 1;
    }
    assert(v@.take(n as int) =~= span(p@, lo, hi));
    true
}

/// Whether a visit to `path` is left out (see `excluded`).
pub fn is_excluded(path: &str, home: &str, exclude: Option<&str>) -> (r: bool)
    ensures
        r == excluded(path@, home@, match exclude {
            Some(x) => Some(x@),
            None => None,
        }),
{
    let pc = chars_of(path);
    let hc = chars_of(home);
    if crate::text::range_is(&pc, 0, pc.len(), hc.as_slice()) {
        assert(span(pc@, 0, pc.len()) =~= path@);
        return true;
    }
    assert(span(pc@, 0, pc.len()) =~= path@);
    if crate::text::range_is(&pc, 0, pc.len(), &['/']) {
        assert(['/']@ =~= seq!['/']);
        return true;
    }
    assert(['/']@ =~= seq!['/']);
    match exclude {
        None => false,
        Some(x) => {
            let xc = chars_of(x);
            let ghost pieces = split_on(x@, ':');
            let mut lo: usize = 0;
            let ghost mut done: nat = 0;
            // the pieces of xc[lo..] are those of x from `done` on
            proof {
                assert(xc@.skip(0) =~= x@);
            }
            loop
                invariant
                    lo <= xc.len(),
                    xc@ == x@,
                    pieces == split_on(x@, ':'),
                    done <= pieces.len(),
                    pieces.skip(done as int) == split_on(xc@.skip(lo as int), ':'),
                    forall|k: int| 0 <= k < done ==> !starts_with(path@, #[trigger] pieces[k]),
                    pc@ == path@,
                    path@ != home@,
                    path@ != seq!['/'],
                    exclude == Some(x),
                decreases xc.len() - lo,
            {
                let ghost rest = xc@.skip(lo as int);
                let next = find_char(&xc, lo, xc.len(), ':');
                proof {
                    lemma_split_on_step(rest, ':');
                    assert(span(xc@, lo, xc.len()) =~= rest);
                    lemma_first_index_bound(rest, ':');
                    assert(rest.take((next - lo) as int) =~= span(xc@, lo, next));
                }
                let hit = range_starts(&pc, &xc, lo, next);
                if next == xc.len() {
                    proof {
                        assert(split_on(rest, ':') =~= seq![rest]);
                        assert(rest =~= span(xc@, lo, next));
                        assert(pieces.skip(done as int).len() == 1);
                        assert(pieces.skip(done as int)[0] == pieces[done as int]);
                        assert(pieces.len() == done + 1);
                        assert(pieces[done as int] == span(xc@, lo, next));
                    }
                    if hit {
                        assert(starts_with(path@, pieces[done as int]));
                        return true;
                    }
                    proof {
                        assert forall|k: int| 0 <= k < pieces.len() implies !starts_with(
                            path@,
                            #[trigger] pieces[k],
                        ) by {
                            if k == done {
                            } else {
                                assert(k < done);
                            }
                        }
                    }
                    return false;
                }
                proof {
                    assert(rest.skip((next - lo) as int + 1) =~= xc@.skip(next + 1));
                    assert(pieces.skip(done as int).len() >= 1);
                    assert(pieces.skip(done as int)[0] == pieces[done as int]);
                    assert(pieces.skip(done as int + 1) =~= pieces.skip(done as int).drop_first());
                    assert(pieces[done as int] == span(xc@, lo, next));
                }
                if hit {
                    assert(starts_with(path@, pieces[done as int]));
                    return true;
                }
                lo = next + 1;
                proof {
                    done = done + 1;
                }
            }
        },
    }
}

/// The index of the first entry for `path`.
pub open spec fn entry_index(s: Seq<NavEntry>, path: Seq<char>) -> Option<nat>
    decreases s.len(),
{
    if s.len() == 0 {
        None
    } else if s[0].path@ == path {
        Some(0)
    } else {
        match entry_index(s.drop_first(), path) {
            Some(i) => Some(i + 1),
            None => None,
        }
    }
}

pub open spec fn total_rank(s: Seq<NavEntry>) -> nat
    decreases s.len(),
{
    if s.len() == 0 {
        0
    } else {
        total_rank(s.drop_last()) + s.last().rank as nat
    }
}

/// The entries after a visit to `path` at `now`: its entry gets one more
/// visit and the new time, or a new entry with one visit is added at the end.
pub open spec fn bumped(s: Seq<NavEntry>, path: String, now: u64) -> Seq<NavEntry> {
    match entry_index(s, path@) {
        Some(i) => s.update(
            i as int,
            NavEntry { path: s[i as int].path, rank: (s[i as int].rank + 1) as u64, time: now },
        ),
        None => s.push(NavEntry { path, rank: 1, time: now }),
    }
}

/// `rank * 0.99` in doubles, as `(rank as f64 * 0.99) as u64` computes it:
/// the rank read as the nearest double, multiplied by the double nearest to
/// `0.99` (`8917127262193582 * 2^-53`), the product rounded to the nearest
/// double, and the result rounded toward zero into a `u64`.
pub open spec fn aged_rank(rank: nat) -> nat {
    min_nat(floor_times(dmul(nearest(rank, 0), (8917127262193582, -53)), 1), u64_max())
}

/// Each rank times 0.99 (see `aged_rank`); entries left with no rank go.
pub open spec fn aged(s: Seq<NavEntry>) -> Seq<NavEntry> {
    s.map_values(
        |e: NavEntry| NavEntry { path: e.path, rank: aged_rank(e.rank as nat) as u64, time: e.time },
    ).filter(|e: NavEntry| e.rank >= 1)
}

/// The database after a visit: `bumped`, then aged when the total of the
/// ranks is above `MAX_SCORE`.
pub open spec fn visited(s: Seq<NavEntry>, path: String, now: u64) -> Seq<NavEntry> {
    let b = bumped(s, path, now);
    if total_rank(b) > 9000 {
        aged(b)
    } else {
        b
    }
}

proof fn lemma_entry_index(s: Seq<NavEntry>, path: Seq<char>, k: nat)
    requires
        k <= s.len(),
        forall|i: int| 0 <= i < k ==> #[trigger] s[i].path@ != path,
        k == s.len() || s[k as int].path@ == path,
    ensures
        k == s.len() ==> entry_index(s, path) is None,
        k < s.len() ==> entry_index(s, path) == Some(k),
    decreases k,
{
    if k > 0 {
        let t = s.drop_first();
        assert forall|i: int| 0 <= i < k - 1 implies #[trigger] t[i].path@ != path by {
            assert(t[i] == s[i + 1]);
        }
        if k < s.len() {
            assert(t[k - 1] == s[k as int]);
        }
        lemma_entry_index(t, path, (k - 1) as nat);
    }
}

proof fn lemma_total_rank_prefix(s: Seq<NavEntry>, k: nat)
    requires
        k <= s.len(),
    ensures
        total_rank(s.take(k as int)) <= total_rank(s),
    decreases s.len(),
{
    if k < s.len() {
        lemma_total_rank_prefix(s.drop_last(), k);
        assert(s.drop_last().take(k as int) =~= s.take(k as int));
    } else {
        assert(s.take(k as int) =~= s);
    }
}

fn path_is(e: &NavEntry, pc: &Vec<char>) -> (r: bool)
    ensures
        r == (e.path@ == pc@),
{
    let ec = chars_of(e.path.as_str());
    let r = crate::text::range_is(&ec, 0, ec.len(), pc.as_slice());
    assert(span(ec@, 0, ec.len()) =~= e.path@);
    r
}

/// Records a visit to `path` at `now` (see `visited`).
pub fn add_visit(entries: Vec<NavEntry>, path: String, now: u64) -> (r: Vec<NavEntry>)
    requires
        entry_index(entries@, path@) matches Some(i) ==> entries@[i as int].rank < 0xFFFF_FFFF_FFFF_FFFF,
        total_rank(bumped(entries@, path, now)) <= 0xFFFF_FFFF_FFFF_FFFF,
    ensures
        r@ == visited(entries@, path, now),
{
    let mut es = entries;
    let mut k: usize = 0;
    let pc = chars_of(path.as_str());
    while k < es.len() && !path_is(&es[k], &pc)
        invariant
            k <= es.len(),
            pc@ == path@,
            forall|i: int| 0 <= i < k ==> #[trigger] es@[i].path@ != path@,
        decreases es.len() - k,
    {
        k = k + 1;
    }
    proof {
        lemma_entry_index(es@, path@, k as nat);
    }
    let ghost b = bumped(entries@, path, now);
    if k < es.len() {
        let old_entry = es[k].duplicate();
        let e = NavEntry { path: old_entry.path, rank: old_entry.rank + 1, time: now };
        es.set(k, e);
    } else {
        es.push(NavEntry { path, rank: 1, time: now });
    }
    assert(es@ == b);
    // the total of the ranks
    let mut total: u64 = 0;
    let mut i: usize = 0;
    while i < es.len()
        invariant
            i <= es.len(),
            es@ == b,
            total == total_rank(es@.take(i as int)),
            total_rank(b) <= 0xFFFF_FFFF_FFFF_FFFF,
        decreases es.len() - i,
    {
        proof {
            assert(es@.take(i + 1).drop_last() =~= es@.take(i as int));
            lemma_total_rank_prefix(es@, (i + 1) as nat);
        }
        total = total + es[i].rank;
        i = i + 1;
    }
    assert(es@.take(es.len() as int) =~= es@);
    if total <= MAX_SCORE {
        return es;
    }
    let ghost mapped = b.map_values(
        |e: NavEntry| NavEntry { path: e.path, rank: aged_rank(e.rank as nat) as u64, time: e.time },
    );
    let ghost keep = |e: NavEntry| e.rank >= 1;
    let mut out: Vec<NavEntry> = Vec::new();
    let mut i: usize = 0;
    while i < es.len()
        invariant
            i <= es.len(),
            es@ == b,
            mapped.len() == b.len(),
            forall|j: int| 0 <= j < b.len() ==> #[trigger] mapped[j] == (NavEntry {
                path: b[j].path,
                rank: aged_rank(b[j].rank as nat) as u64,
                time: b[j].time,
            }),
            keep == (|e: NavEntry| e.rank >= 1),
            out@ == mapped.take(i as int).filter(keep),
        decreases es.len() - i,
    {
        let e = es[i].duplicate();
        let r = aged_rank_exec(e.rank);
        proof {
            assert(mapped.take(i + 1) =~= mapped.take(i as int).push(mapped[i as int]));
            mapped.take(i as int).lemma_filter_push(mapped[i as int], keep);
        }
        if r >= 1 {
            out.push(NavEntry { path: e.path, rank: r, time: e.time });
        }
        i = i + 1;
    }
    assert(mapped.take(es.len() as int) =~= mapped);
    out
}

proof fn lemma_total_rank_update(s: Seq<NavEntry>, i: int, e: NavEntry)
    requires
        0 <= i < s.len(),
    ensures
        total_rank(s.update(i, e)) + s[i].rank == total_rank(s) + e.rank,
    decreases s.len(),
{
    let u = s.update(i, e);
    if i == s.len() - 1 {
        assert(u.drop_last() =~= s.drop_last());
    } else {
        lemma_total_rank_update(s.drop_last(), i, e);
        assert(u.drop_last() =~= s.drop_last().update(i, e));
    }
}

/// `rank * 0.99` in doubles (see `aged_rank`).
fn aged_rank_exec(rank: u64) -> (r: u64)
    ensures
        r == aged_rank(rank as nat),
{
    proof {
        lemma_pow2_values();
        lemma_cast_exponent(rank as nat);
    }
    let x = nearest_exec(rank as u128, 0);
    let c: (u64, i32) = (8917127262193582, -53);
    proof {
        lemma_dmul(pair_of(x), pair_of(c));
    }
    let y = dmul_exec(x, c);
    if y.0 == 0 {
        assert(floor_times((0nat, 0int), 1) == 0) by {
            assert(0 * pow2(0) * 1 == 0) by (nonlinear_arith);
        }
        return 0;
    }
    if y.1 >= 0 {
        let p = crate::binary::pow2_exec(y.1 as u32);
        proof {
            lemma_pow2_positive(y.1 as nat);
            if y.1 < 13 {
                crate::binary::lemma_pow2_strict(y.1 as nat, 13);
            }
            assert(pow2(13) == 8192) by {
                reveal_with_fuel(pow2, 14);
            }
            assert((y.0 as nat) * (p as nat) <= 0x20_0000_0000_0000 * 8192) by (nonlinear_arith)
                requires
                    y.0 < 0x20_0000_0000_0000,
                    p <= 8192,
            ;
            assert((y.0 as nat) * (p as nat) * 1 == (y.0 as nat) * (p as nat));
        }
        let v: u128 = y.0 as u128 * p;
        if v > 0xFFFF_FFFF_FFFF_FFFF {
            0xFFFF_FFFF_FFFF_FFFF
        } else {
            v as u64
        }
    } else {
        let p = crate::binary::pow2_exec((-y.1) as u32);
        proof {
            lemma_pow2_positive((-y.1) as nat);
            assert((y.0 as nat) * 1 == y.0 as nat);
            vstd::arithmetic::div_mod::lemma_div_is_ordered_by_denominator(y.0 as int, 1, p as int);
        }
        (y.0 as u128 / p) as u64
    }
}

/// A double rounded toward zero is at most its magnitude scaled back.
proof fn lemma_floor_times_magnitude(y: (nat, int))
    requires
        y.1 >= -1000,
    ensures
        floor_times(y, 1) * pow2(1000) <= magnitude(y),
{
    if y.1 >= 0 {
        let a = y.1 as nat;
        lemma_pow2_add(a, 1000);
        assert(y.0 * pow2(a) * 1 * pow2(1000) == y.0 * (pow2(a) * pow2(1000))) by (nonlinear_arith);
    } else {
        let j = (-y.1) as nat;
        let u = (1000 - j) as nat;
        lemma_pow2_add(j, u);
        lemma_pow2_positive(j);
        let q = (y.0 * 1) / pow2(j);
        vstd::arithmetic::div_mod::lemma_fundamental_div_mod((y.0 * 1) as int, pow2(j) as int);
        assert(q * pow2(j) <= y.0);
        assert(q * pow2(1000) <= y.0 * pow2(u)) by (nonlinear_arith)
            requires
                q * pow2(j) <= y.0,
                pow2(1000) == pow2(j) * pow2(u),
        ;
    }
}

/// Aging never gives more than `0.99` of a rank below `2^20`: doubles round
/// `rank * 0.99` to at most the nearest whole number below it.
#[verifier::spinoff_prover]
#[verifier::rlimit(50)]
proof fn lemma_aged_rank_bound(r: nat)
    requires
        r < 0x10_0000,
    ensures
        100 * aged_rank(r) <= 99 * r,
        aged_rank(r) <= r,
{
    lemma_pow2_values();
    let c: (nat, int) = (8917127262193582, -53);
    let x = nearest(r, 0);
    lemma_nearest(r, 0);
    if r == 0 {
        lemma_dmul(x, c);
        assert(floor_times((0nat, 0int), 1) == 0) by {
            assert(0 * pow2(0) * 1 == 0) by (nonlinear_arith);
        }
        return;
    }
    let nn = r * 99 / 100;
    let bm: nat = ((nn + 1) * 0x1_0000_0000 - 1) as nat;
    // the exact value of x is r
    let l = bit_len(r);
    lemma_bit_len(r);
    assert(pow2(20) == 0x10_0000) by {
        reveal_with_fuel(pow2, 21);
    }
    crate::binary::lemma_bit_len_between(r, 0, 20);
    let k = (53 - l) as nat;
    lemma_pow2_add(k, (l - 53 + 1000) as nat);
    assert(magnitude(x) == r * pow2(1000)) by {
        assert(x == (r * pow2(k), l - 53));
        assert(k + (l - 53 + 1000) as nat == 1000);
        assert(r * pow2(k) * pow2((l - 53 + 1000) as nat) == r * (pow2(k) * pow2((l - 53 + 1000) as nat))) by (nonlinear_arith);
    }
    // the exact product, at the scale of magnitudes, is below bm * 2^968
    let e = x.1 - 53;
    let s1 = (e + 1000) as nat;
    lemma_pow2_add(53, s1);
    assert(53 + s1 == (x.1 + 1000) as nat);
    lemma_pow2_add(947, 53);
    lemma_pow2_add(968, 32);
    lemma_pow2_add(947, 21);
    assert(pow2(21) == 0x20_0000 && pow2(32) == 0x1_0000_0000) by {
        reveal_with_fuel(pow2, 33);
    }
    let prod = x.0 * c.0;
    assert(prod * pow2(s1) * pow2(53) == r * c.0 * pow2(1000)) by (nonlinear_arith)
        requires
            prod == x.0 * c.0,
            magnitude(x) == x.0 * pow2((x.1 + 1000) as nat),
            magnitude(x) == r * pow2(1000),
            pow2((x.1 + 1000) as nat) == pow2(53) * pow2(s1),
    ;
    assert(100 * nn <= 99 * r && 99 * r < 100 * nn + 100) by {
        vstd::arithmetic::div_mod::lemma_fundamental_div_mod((99 * r) as int, 100);
    }
    assert(r * c.0 + 0x20_0000 <= (nn + 1) * pow2(53)) by (nonlinear_arith)
        requires
            100 * c.0 + 8 == 99 * pow2(53),
            99 * r + 1 <= 100 * (nn + 1),
            pow2(53) == 0x20_0000_0000_0000,
            r >= 1,
    ;
    assert(prod * pow2(s1) <= bm * pow2(968)) by (nonlinear_arith)
        requires
            prod * pow2(s1) * pow2(53) == r * c.0 * pow2(1000),
            pow2(1000) == pow2(947) * pow2(53),
            pow2(968) == pow2(947) * pow2(21),
            pow2(21) == 0x20_0000,
            pow2(53) == pow2(21) * 0x1_0000_0000,
            r * c.0 + 0x20_0000 <= (nn + 1) * pow2(53),
            bm == (nn + 1) * 0x1_0000_0000 - 1,
            pow2(53) > 0,
    ;
    lemma_nearest_monotone(prod, e, bm, -32);
    // bm * 2^968 is itself a double's magnitude
    lemma_nearest_magnitude(bm, -32);
    assert(nn + 1 <= 0x10_0000);
    assert(bm < pow2(53));
    let bl = bit_len(bm);
    assert(bm >= 1);
    assert(pow2(0) == 1);
    crate::binary::lemma_bit_len_between(bm, 0, 53);
    lemma_bit_len(bm);
    lemma_bit_len_shift(bm, 968);
    let kk = (bl + 968 - 53) as nat;
    lemma_pow2_add((53 - bl) as nat, kk);
    assert((53 - bl) as nat + kk == 968);
    assert(bm * pow2(968) == (bm * pow2((53 - bl) as nat)) * pow2(kk)) by (nonlinear_arith)
        requires
            pow2(968) == pow2((53 - bl) as nat) * pow2(kk),
    ;
    lemma_pow2_positive(kk);
    lemma_round_even_exact(bm * pow2((53 - bl) as nat), pow2(kk));
    assert(round53(bm * pow2(968)) == bm * pow2(968));
    // so the product's double is below nn + 1, and rounds down to at most nn
    let y = dmul(x, c);
    lemma_dmul(x, c);
    lemma_floor_times_magnitude(y);
    assert(floor_times(y, 1) * pow2(1000) < (nn + 1) * pow2(1000)) by (nonlinear_arith)
        requires
            floor_times(y, 1) * pow2(1000) <= magnitude(y),
            magnitude(y) <= bm * pow2(968),
            bm == (nn + 1) * 0x1_0000_0000 - 1,
            pow2(1000) == pow2(968) * 0x1_0000_0000,
            pow2(968) > 0,
    ;
    lemma_pow2_positive(1000);
    assert(floor_times(y, 1) <= nn) by (nonlinear_arith)
        requires
            floor_times(y, 1) * pow2(1000) < (nn + 1) * pow2(1000),
            pow2(1000) > 0,
    ;
    assert(nn <= r) by (nonlinear_arith)
        requires
            100 * nn <= 99 * r,
    ;
}

proof fn lemma_total_rank_aged(b: Seq<NavEntry>)
    requires
        total_rank(b) < 0x10_0000,
    ensures
        100 * total_rank(aged(b)) <= 99 * total_rank(b),
    decreases b.len(),
{
    let f = |e: NavEntry| NavEntry { path: e.path, rank: aged_rank(e.rank as nat) as u64, time: e.time };
    let keep = |e: NavEntry| e.rank >= 1;
    if b.len() == 0 {
        assert(b.map_values(f) =~= Seq::<NavEntry>::empty());
        assert(aged(b) =~= Seq::<NavEntry>::empty());
    } else {
        let t = b.drop_last();
        lemma_total_rank_aged(t);
        assert(b.map_values(f) =~= t.map_values(f).push(f(b.last())));
        t.map_values(f).lemma_filter_push(f(b.last()), keep);
        assert(aged(t) == t.map_values(f).filter(keep));
        assert(aged(b) == b.map_values(f).filter(keep));
        let r = b.last().rank as nat;
        lemma_aged_rank_bound(r);
        assert(f(b.last()).rank == aged_rank(r)) by {
            assert(aged_rank(r) <= r);
        }
        if keep(f(b.last())) {
            assert(aged(b) =~= aged(t).push(f(b.last())));
            assert(aged(b).drop_last() =~= aged(t));
        } else {
            assert(aged(b) =~= aged(t));
        }
    }
}

/// The ranks stay bounded: when they total at most `MAX_SCORE`, they still
/// do after any visit (a visit adds one, and crossing the limit ages them
/// all).
pub proof fn lemma_visit_keeps_total(s: Seq<NavEntry>, path: String, now: u64)
    requires
        total_rank(s) <= 9000,
        entry_index(s, path@) matches Some(i) ==> s[i as int].rank < 0xFFFF_FFFF_FFFF_FFFF,
    ensures
        total_rank(visited(s, path, now)) <= 9000,
{
    let b = bumped(s, path, now);
    match entry_index(s, path@) {
        Some(i) => {
            lemma_entry_index_bound(s, path@);
            lemma_total_rank_update(
                s,
                i as int,
                NavEntry { path: s[i as int].path, rank: (s[i as int].rank + 1) as u64, time: now },
            );
        },
        None => {
            assert(b.drop_last() =~= s);
        },
    }
    assert(total_rank(b) == total_rank(s) + 1);
    if total_rank(b) > 9000 {
        lemma_total_rank_aged(b);
    }
}

proof fn lemma_entry_index_bound(s: Seq<NavEntry>, path: Seq<char>)
    ensures
        entry_index(s, path) matches Some(i) ==> i < s.len(),
    decreases s.len(),
{
    if s.len() > 0 && s[0].path@ != path {
        lemma_entry_index_bound(s.drop_first(), path);
    }
}

/// The database without the entries for `path`.
pub fn remove_path(entries: Vec<NavEntry>, path: &str) -> (r: Vec<NavEntry>)
    ensures
        r@ == entries@.filter(|e: NavEntry| e.path@ != path@),
{
    let pc = chars_of(path);
    let ghost keep = |e: NavEntry| e.path@ != path@;
    let mut out: Vec<NavEntry> = Vec::new();
    let mut i: usize = 0;
    while i < entries.len()
        invariant
            i <= entries.len(),
            pc@ == path@,
            keep == (|e: NavEntry| e.path@ != path@),
            out@ == entries@.take(i as int).filter(keep),
        decreases entries.len() - i,
    {
        let ec = chars_of(entries[i].path.as_str());
        let same = crate::text::range_is(&ec, 0, ec.len(), pc.as_slice());
        proof {
            assert(span(ec@, 0, ec.len()) =~= entries@[i as int].path@);
            assert(entries@.take(i + 1) =~= entries@.take(i as int).push(entries@[i as int]));
            entries@.take(i as int).lemma_filter_push(entries@[i as int], keep);
        }
        if !same {
            out.push(entries[i].duplicate());
        }
        i = i + 1;
    }
    assert(entries@.take(entries.len() as int) =~= entries@);
    out
}


// ── queries ─────────────────────────────────────────────────────
/// A matching directory and its score.
#[derive(Debug, Clone)]
pub struct Scored {
    pub path: String,
    pub score: u64,
}

impl Scored {
    pub fn duplicate(&self) -> (r: Scored)
        ensures
            r == *self,
    {
        Scored { path: self.path.clone(), score: self.score }
    }
}

/// What a query scores the directories by.
#[derive(Debug, Clone, Copy, PartialEq, Eq)]
pub enum RankBy {
    Frecency,
    Rank,
    Recent,
}

/// What a query answers.
#[derive(Debug)]
pub enum QueryOutcome {
    /// Nothing matched (or the database is empty): nothing is printed.
    Nothing,
    /// The matches, highest score first, each printed as a line.
    Listing(Vec<Scored>),
    /// The one directory to go to.
    Jump(String),
}

/// The characters joined with `sep` between them, as `[String]::join` does.
pub open spec fn joined_with(ps: Seq<Seq<char>>, sep: Seq<char>) -> Seq<char>
    decreases ps.len(),
{
    if ps.len() == 0 {
        Seq::empty()
    } else if ps.len() == 1 {
        ps[0]
    } else {
        joined_with(ps.drop_last(), sep) + sep + ps.last()
    }
}

/// Each space replaced by `.*`.
pub open spec fn spaces_as_wildcards(s: Seq<char>) -> Seq<char>
    decreases s.len(),
{
    if s.len() == 0 {
        s
    } else {
        spaces_as_wildcards(s.drop_last()) + if s.last() == ' ' {
            seq!['.', '*']
        } else {
            seq![s.last()]
        }
    }
}

/// The regular expression of a query: the escaped working directory and
/// `.*` when the query is restricted to it, then the words joined by `.*`.
pub open spec fn query_pattern(words: Seq<Seq<char>>, restrict: bool, cwd: Option<Seq<char>>) -> Seq<char> {
    (if restrict && cwd is Some {
        regex_escaped(cwd->0) + seq!['.', '*']
    } else {
        Seq::empty()
    }) + spaces_as_wildcards(joined_with(words, seq![' ']))
}

/// The pattern made case-insensitive.
pub open spec fn ignoring_case(p: Seq<char>) -> Seq<char> {
    seq!['(', '?', 'i', ')'] + p
}

/// Whether a directory is a match: every one when the pattern is empty,
/// otherwise when the pattern compiles and finds something in the path, as
/// it is or else ignoring case.
pub open spec fn selects(pattern: Seq<char>, path: Seq<char>) -> bool {
    pattern.len() == 0 || (regex_accepts(pattern) && (regex_finds(pattern, path) || (
    regex_accepts(ignoring_case(pattern)) && regex_finds(ignoring_case(pattern), path))))
}

pub open spec fn score_of(e: NavEntry, by: RankBy, now: nat) -> nat {
    match by {
        RankBy::Rank => e.rank as nat,
        RankBy::Recent => e.time as nat,
        RankBy::Frecency => frecency_of(
            e.rank as nat,
            if now >= e.time {
                (now - e.time) as nat
            } else {
                0
            },
        ),
    }
}

/// The entries whose flag in `hits` is set, in order.
pub open spec fn picked(s: Seq<NavEntry>, hits: Seq<bool>) -> Seq<NavEntry>
    decreases s.len(),
{
    if s.len() == 0 {
        Seq::empty()
    } else {
        picked(s.drop_last(), hits.take(s.len() - 1)) + if hits[s.len() - 1] {
            seq![s.last()]
        } else {
            Seq::empty()
        }
    }
}

/// An entry with its score.
pub open spec fn scored(e: NavEntry, by: RankBy, now: nat) -> Scored {
    Scored { path: e.path, score: score_of(e, by, now) as u64 }
}

/// The matching entries (those whose flag in `hits` is set) with their
/// scores, in the order of the database.
pub open spec fn scored_hits(s: Seq<NavEntry>, hits: Seq<bool>, by: RankBy, now: nat) -> Seq<Scored> {
    picked(s, hits).map_values(|e: NavEntry| scored(e, by, now))
}

/// Where `x` goes among the scores sorted highest first: after all that are
/// at least as high.
pub open spec fn score_position(s: Seq<Scored>, x: Scored) -> nat
    decreases s.len(),
{
    if s.len() > 0 && s[0].score >= x.score {
        1 + score_position(s.drop_first(), x)
    } else {
        0
    }
}

/// `s` sorted by score, highest first, keeping the order of equal scores.
pub open spec fn sorted_by_score(s: Seq<Scored>) -> Seq<Scored>
    decreases s.len(),
{
    if s.len() == 0 {
        s
    } else {
        let t = sorted_by_score(s.drop_last());
        let p = score_position(t, s.last()) as int;
        t.take(p) + seq![s.last()] + t.skip(p)
    }
}

proof fn lemma_score_position(s: Seq<Scored>, x: Scored, k: nat)
    requires
        k <= s.len(),
        forall|i: int| 0 <= i < k ==> #[trigger] s[i].score >= x.score,
        k == s.len() || s[k as int].score < x.score,
    ensures
        score_position(s, x) == k,
    decreases k,
{
    if k > 0 {
        let t = s.drop_first();
        assert forall|i: int| 0 <= i < k - 1 implies #[trigger] t[i].score >= x.score by {
            assert(t[i] == s[i + 1]);
            assert(s[i + 1].score >= x.score);
        }
        if k < s.len() {
            assert(t[k - 1] == s[k as int]);
        }
        lemma_score_position(t, x, (k - 1) as nat);
    }
}

/// Where `x` goes among scores: every score before that place is at least
/// as high as its own, and the one at that place is lower.
proof fn lemma_score_position_splits(t: Seq<Scored>, x: Scored)
    ensures
        score_position(t, x) <= t.len(),
        forall|i: int| 0 <= i < score_position(t, x) ==> #[trigger] t[i].score >= x.score,
        score_position(t, x) < t.len() ==> t[score_position(t, x) as int].score < x.score,
    decreases t.len(),
{
    if t.len() > 0 && t[0].score >= x.score {
        let u = t.drop_first();
        lemma_score_position_splits(u, x);
        assert forall|i: int| 0 <= i < score_position(t, x) implies #[trigger] t[i].score >= x.score by {
            if i > 0 {
                assert(t[i] == u[i - 1]);
            }
        }
        if score_position(t, x) < t.len() {
            assert(t[score_position(t, x) as int] == u[score_position(u, x) as int]);
        }
    }
}

/// Sorting by score puts the highest scores first and keeps every scored
/// entry, each as often as it came: the result is ordered from the highest
/// score down, and holds the same entries as the input.
pub proof fn lemma_sorted_by_score(s: Seq<Scored>)
    ensures
        sorted_by_score(s).len() == s.len(),
        forall|i: int, j: int|
            0 <= i < j < s.len() ==> #[trigger] sorted_by_score(s)[i].score >= #[trigger] sorted_by_score(s)[j].score,
        sorted_by_score(s).to_multiset() == s.to_multiset(),
    decreases s.len(),
{
    broadcast use vstd::seq_lib::group_to_multiset_ensures;
    if s.len() == 0 {
        return;
    }
    let t = sorted_by_score(s.drop_last());
    let x = s.last();
    lemma_sorted_by_score(s.drop_last());
    lemma_score_position_splits(t, x);
    let p = score_position(t, x) as int;
    let r = sorted_by_score(s);
    assert(r == t.take(p) + seq![x] + t.skip(p));
    assert(r =~= t.insert(p, x));
    vstd::seq_lib::to_multiset_insert(t, p, x);
    assert(s.drop_last().push(x) =~= s);
    assert forall|i: int, j: int| 0 <= i < j < s.len() implies #[trigger] r[i].score >= #[trigger] r[j].score by {
        if j < p {
            assert(r[i] == t[i] && r[j] == t[j]);
        } else if j == p {
            assert(r[j] == x);
            assert(r[i] == t[i]);
        } else if i < p {
            assert(r[i] == t[i] && r[j] == t[j - 1]);
        } else if i == p {
            assert(r[i] == x && r[j] == t[j - 1]);
            assert(t[p].score >= t[j - 1].score || j - 1 == p);
        } else {
            assert(r[i] == t[i - 1] && r[j] == t[j - 1]);
        }
    }
}

/// Of a sequence none of whose entries scores `v`, none is kept by a
/// filter on that score.
proof fn lemma_no_score(u: Seq<Scored>, v: u64)
    requires
        forall|i: int| 0 <= i < u.len() ==> #[trigger] u[i].score != v,
    ensures
        u.filter(|e: Scored| e.score == v) == Seq::<Scored>::empty(),
    decreases u.len(),
{
    reveal(Seq::filter);
    if u.len() > 0 {
        lemma_no_score(u.drop_last(), v);
    }
}

/// Sorting by score keeps the order of entries with equal scores: for every
/// score, the entries that have it come in the order of the input.
pub proof fn lemma_sorted_by_score_stable(s: Seq<Scored>, v: u64)
    ensures
        sorted_by_score(s).filter(|e: Scored| e.score == v) == s.filter(|e: Scored| e.score == v),
    decreases s.len(),
{
    reveal(Seq::filter);
    let f = |e: Scored| e.score == v;
    if s.len() == 0 {
        return;
    }
    let t = sorted_by_score(s.drop_last());
    let x = s.last();
    lemma_sorted_by_score_stable(s.drop_last(), v);
    lemma_sorted_by_score(s.drop_last());
    lemma_score_position_splits(t, x);
    let p = score_position(t, x) as int;
    let a = t.take(p);
    let b = t.skip(p);
    assert(sorted_by_score(s) == a + seq![x] + b);
    Seq::filter_distributes_over_add(a + seq![x], b, f);
    Seq::filter_distributes_over_add(a, seq![x], f);
    Seq::filter_distributes_over_add(a, b, f);
    assert(a + b =~= t);
    assert(seq![x].drop_last() =~= Seq::<Scored>::empty());
    assert(seq![x].drop_last().filter(f) =~= Seq::<Scored>::empty());
    if x.score == v {
        assert forall|i: int| 0 <= i < b.len() implies #[trigger] b[i].score != v by {
            assert(b[i] == t[p + i]);
            if i > 0 {
                assert(t[p].score >= t[p + i].score);
            }
        }
        lemma_no_score(b, v);
        assert(seq![x].filter(f) =~= seq![x]);
        assert(s.filter(f) == s.drop_last().filter(f).push(x));
        assert((a.filter(f) + seq![x]) + Seq::<Scored>::empty() =~= (a.filter(f) + Seq::<Scored>::empty()).push(x));
    } else {
        assert(seq![x].filter(f) =~= Seq::<Scored>::empty());
        assert(s.filter(f) == s.drop_last().filter(f));
        assert(a.filter(f) + Seq::<Scored>::empty() =~= a.filter(f));
    }
}

/// A listing answers with every match of the query, scored, from the
/// highest score down: the matches come sorted by score, and they are the
/// scored matches, each as often as it matched.
pub proof fn lemma_listing_sorted(
    s: Seq<NavEntry>,
    restrict: bool,
    echo: bool,
    list: bool,
    rank: bool,
    recent: bool,
    words: Seq<Seq<char>>,
    cwd: Option<Seq<char>>,
    now: nat,
)
    ensures
        query_answer(s, restrict, echo, list, rank, recent, words, cwd, now) matches QueryAnswer::Listing(v) ==> {
            &&& forall|i: int, j: int| 0 <= i < j < v.len() ==> #[trigger] v[i].score >= #[trigger] v[j].score
            &&& v.to_multiset() == scored_hits(
                s,
                query_hits(s, words, restrict, cwd),
                rank_by(rank, recent),
                now,
            ).to_multiset()
        },
{
    lemma_sorted_by_score(scored_hits(s, query_hits(s, words, restrict, cwd), rank_by(rank, recent), now));
}

fn sort_scores(v: Vec<Scored>) -> (r: Vec<Scored>)
    ensures
        r@ == sorted_by_score(v@),
{
    let mut out: Vec<Scored> = Vec::new();
    let mut i: usize = 0;
    while i < v.len()
        invariant
            i <= v.len(),
            out@ == sorted_by_score(v@.take(i as int)),
        decreases v.len() - i,
    {
        let x = v[i].duplicate();
        let mut k: usize = 0;
        while k < out.len() && out[k].score >= x.score
            invariant
                k <= out.len(),
                forall|j: int| 0 <= j < k ==> #[trigger] out@[j].score >= x.score,
            decreases out.len() - k,
        {
            k = k + 1;
        }
        proof {
            lemma_score_position(out@, x, k as nat);
            assert(v@.take(i + 1).drop_last() =~= v@.take(i as int));
            assert(v@.take(i + 1).last() == x);
        }
        let ghost before = out@;
        out.insert(k, x);
        assert(out@ =~= before.take(k as int) + seq![x] + before.skip(k as int));
        i = i + 1;
    }
    assert(v@.take(v.len() as int) =~= v@);
    out
}

/// The index of the first of the shortest paths.
pub open spec fn first_shortest(ps: Seq<Seq<char>>) -> nat
    decreases ps.len(),
{
    if ps.len() <= 1 {
        0
    } else {
        let j = first_shortest(ps.drop_last());
        if ps.last().len() < ps[j as int].len() {
            (ps.len() - 1) as nat
        } else {
            j
        }
    }
}

/// For more than one match: the shortest path (the first such), when every
/// match starts with it and it is not `/`.
pub open spec fn common_prefix_of(ps: Seq<Seq<char>>) -> Option<Seq<char>> {
    if ps.len() <= 1 {
        None
    } else {
        let s = ps[first_shortest(ps) as int];
        if s == seq!['/'] {
            None
        } else if forall|i: int| 0 <= i < ps.len() ==> #[trigger] starts_with(ps[i], s) {
            Some(s)
        } else {
            None
        }
    }
}

pub open spec fn scored_paths(s: Seq<Scored>) -> Seq<Seq<char>> {
    s.map_values(|x: Scored| x.path@)
}

proof fn lemma_first_shortest_bound(ps: Seq<Seq<char>>)
    ensures
        ps.len() > 0 ==> first_shortest(ps) < ps.len(),
    decreases ps.len(),
{
    if ps.len() > 1 {
        lemma_first_shortest_bound(ps.drop_last());
    }
}

fn text_starts_with(s: &Vec<char>, prefix: &Vec<char>) -> (r: bool)
    ensures
        r == starts_with(s@, prefix@),
{
    let r = range_starts(s, prefix, 0, prefix.len());
    assert(span(prefix@, 0, prefix.len()) =~= prefix@);
    r
}

/// The common prefix of the matches (see `common_prefix_of`).
pub fn common_prefix(matches: &Vec<Scored>) -> (r: Option<String>)
    ensures
        match r {
            Some(p) => common_prefix_of(scored_paths(matches@)) == Some(p@),
            None => common_prefix_of(scored_paths(matches@)) is None,
        },
{
    let ghost ps = scored_paths(matches@);
    if matches.len() <= 1 {
        return None;
    }
    let mut best: usize = 0;
    let mut best_len = chars_of(matches[0].path.as_str()).len();
    let mut i: usize = 1;
    while i < matches.len()
        invariant
            1 <= i <= matches.len(),
            ps == scored_paths(matches@),
            best < i,
            best == first_shortest(ps.take(i as int)),
            best_len == ps[best as int].len(),
        decreases matches.len() - i,
    {
        let l = chars_of(matches[i].path.as_str()).len();
        proof {
            assert(ps.take(i + 1).drop_last() =~= ps.take(i as int));
            assert(ps.take(i + 1).last() == ps[i as int]);
            assert(ps.take(i + 1)[best as int] == ps[best as int]);
        }
        if l < best_len {
            best = i;
            best_len = l;
        }
        i = i + 1;
    }
    assert(ps.take(matches.len() as int) =~= ps);
    let s = chars_of(matches[best].path.as_str());
    if crate::text::range_is(&s, 0, s.len(), &['/']) {
        assert(span(s@, 0, s.len()) =~= s@);
        assert(['/']@ =~= seq!['/']);
        return None;
    }
    assert(span(s@, 0, s.len()) =~= s@);
    assert(['/']@ =~= seq!['/']);
    let mut j: usize = 0;
    while j < matches.len()
        invariant
            j <= matches.len(),
            ps == scored_paths(matches@),
            ps.len() == matches@.len(),
            ps.len() > 1,
            best == first_shortest(ps),
            best < ps.len(),
            s@ == ps[best as int],
            s@ != seq!['/'],
            forall|k: int| 0 <= k < j ==> #[trigger] starts_with(ps[k], s@),
        decreases matches.len() - j,
    {
        let c = chars_of(matches[j].path.as_str());
        if !text_starts_with(&c, &s) {
            assert(ps[j as int] == c@);
            assert(!starts_with(ps[j as int], s@));
            return None;
        }
        j = j + 1;
    }
    Some(matches[best].path.clone())
}

/// What a query answers, as a value.
pub enum QueryAnswer {
    Nothing,
    Listing(Seq<Scored>),
    Jump(Seq<char>),
}

pub open spec fn rank_by(rank: bool, recent: bool) -> RankBy {
    if rank {
        RankBy::Rank
    } else if recent {
        RankBy::Recent
    } else {
        RankBy::Frecency
    }
}

/// The answer to a query on `s` whose matches are flagged in `hits`, scored
/// `by`: listing with `list` or for an open query (neither words nor a
/// restriction), only printing the best match with `echo`. Without a
/// listing the answer is the common prefix of the matches, when scored by
/// frecency without `echo`, or else the best match.
pub open spec fn answer_from(
    s: Seq<NavEntry>,
    hits: Seq<bool>,
    echo: bool,
    list: bool,
    by: RankBy,
    open: bool,
    now: nat,
) -> QueryAnswer {
    let sorted = sorted_by_score(scored_hits(s, hits, by, now));
    if s.len() == 0 || sorted.len() == 0 {
        QueryAnswer::Nothing
    } else if list || open {
        QueryAnswer::Listing(sorted)
    } else if by == RankBy::Frecency && !echo && common_prefix_of(scored_paths(sorted)) is Some {
        QueryAnswer::Jump(common_prefix_of(scored_paths(sorted))->0)
    } else {
        QueryAnswer::Jump(sorted[0].path@)
    }
}

/// Which entries a query on `s` matches: those that `selects` with its
/// pattern.
pub open spec fn query_hits(s: Seq<NavEntry>, words: Seq<Seq<char>>, restrict: bool, cwd: Option<Seq<char>>) -> Seq<bool> {
    s.map_values(|e: NavEntry| selects(query_pattern(words, restrict, cwd), e.path@))
}

/// The answer to a query on `s` with the words `words`: restricted to the
/// working directory `cwd` (when it is known) with `restrict`, only printing
/// the best match with `echo`, listing with `list` (or when there is neither
/// word nor restriction), scoring by visits with `rank`, by time with
/// `recent`, and by frecency at `now` otherwise.
pub open spec fn query_answer(
    s: Seq<NavEntry>,
    restrict: bool,
    echo: bool,
    list: bool,
    rank: bool,
    recent: bool,
    words: Seq<Seq<char>>,
    cwd: Option<Seq<char>>,
    now: nat,
) -> QueryAnswer {
    answer_from(
        s,
        query_hits(s, words, restrict, cwd),
        echo,
        list,
        rank_by(rank, recent),
        words.len() == 0 && !restrict,
        now,
    )
}

pub open spec fn answer_of(r: QueryOutcome) -> QueryAnswer {
    match r {
        QueryOutcome::Nothing => QueryAnswer::Nothing,
        QueryOutcome::Listing(v) => QueryAnswer::Listing(v@),
        QueryOutcome::Jump(p) => QueryAnswer::Jump(p@),
    }
}

fn words_pattern(words: &Vec<String>) -> (r: Vec<char>)
    ensures
        r@ == spaces_as_wildcards(joined_with(crate::trash::strings_view(words@), seq![' '])),
{
    let ghost ws = crate::trash::strings_view(words@);
    let mut joined: Vec<char> = Vec::new();
    let mut i: usize = 0;
    while i < words.len()
        invariant
            i <= words.len(),
            ws == crate::trash::strings_view(words@),
            joined@ == joined_with(ws.take(i as int), seq![' ']),
        decreases words.len() - i,
    {
        if i > 0 {
            joined.push(' ');
        }
        push_str(&mut joined, words[i].as_str());
        proof {
            assert(ws.take(i + 1).drop_last() =~= ws.take(i as int));
            assert(ws.take(i + 1).last() == words@[i as int]@);
            if i == 0 {
                assert(ws.take(1) =~= seq![ws[0]]);
            }
        }
        i = i + 1;
    }
    assert(ws.take(words.len() as int) =~= ws);
    let mut out: Vec<char> = Vec::new();
    let mut k: usize = 0;
    while k < joined.len()
        invariant
            k <= joined.len(),
            out@ == spaces_as_wildcards(joined@.take(k as int)),
        decreases joined.len() - k,
    {
        let c = joined[k];
        if c == ' ' {
            out.push('.');
            out.push('*');
        } else {
            out.push(c);
        }
        proof {
            assert(joined@.take(k + 1).drop_last() =~= joined@.take(k as int));
            assert(joined@.take(k + 1).last() == c);
            assert(out@ =~= spaces_as_wildcards(joined@.take(k + 1)));
        }
        k = k + 1;
    }
    assert(joined@.take(joined.len() as int) =~= joined@);
    out
}

/// Answers a query on the database (see `query_answer`).
pub fn query(
    entries: &Vec<NavEntry>,
    restrict: bool,
    echo: bool,
    list: bool,
    rank: bool,
    recent: bool,
    words: &Vec<String>,
    cwd: Option<String>,
    now: u64,
) -> (r: QueryOutcome)
    ensures
        answer_of(r) == query_answer(
            entries@,
            restrict,
            echo,
            list,
            rank,
            recent,
            crate::trash::strings_view(words@),
            crate::trash::opt_view(cwd),
            now as nat,
        ),
{
    if entries.len() == 0 {
        return QueryOutcome::Nothing;
    }
    let by = if rank {
        RankBy::Rank
    } else if recent {
        RankBy::Recent
    } else {
        RankBy::Frecency
    };
    // the pattern
    let mut pattern: Vec<char> = Vec::new();
    if restrict {
        match &cwd {
            Some(c) => {
                let esc = regex_escape(c.as_str());
                push_str(&mut pattern, esc.as_str());
                pattern.push('.');
                pattern.push('*');
            },
            None => {},
        }
    }
    let tail = words_pattern(words);
    let mut k: usize = 0;
    let ghost head = pattern@;
    while k < tail.len()
        invariant
            k <= tail.len(),
            pattern@ == head + tail@.take(k as int),
        decreases tail.len() - k,
    {
        pattern.push(tail[k]);
        assert(tail@.take(k + 1) =~= tail@.take(k as int).push(tail@[k as int]));
        k = k + 1;
    }
    let ghost p = query_pattern(crate::trash::strings_view(words@), restrict, crate::trash::opt_view(cwd));
    assert(tail@.take(tail.len() as int) =~= tail@);
    assert(pattern@ =~= p);
    let ptext = string_of(&pattern);
    let mut ci: Vec<char> = Vec::new();
    ci.push('(');
    ci.push('?');
    ci.push('i');
    ci.push(')');
    push_str(&mut ci, ptext.as_str());
    assert(ci@ =~= ignoring_case(p));
    let citext = string_of(&ci);
    let re = compile_regex(ptext.as_str());
    let re_ci = compile_regex(citext.as_str());
    // which entries match
    let ghost sel = |e: NavEntry| selects(p, e.path@);
    let mut hits: Vec<bool> = Vec::new();
    let mut i: usize = 0;
    while i < entries.len()
        invariant
            i <= entries.len(),
            hits@.len() == i,
            sel == (|e: NavEntry| selects(p, e.path@)),
            pattern@ == p,
            re is Some == regex_accepts(p),
            re matches Some(c) ==> c.pattern() == p,
            re_ci is Some == regex_accepts(ignoring_case(p)),
            re_ci matches Some(c) ==> c.pattern() == ignoring_case(p),
            forall|j: int| 0 <= j < i ==> hits@[j] == sel(#[trigger] entries@[j]),
        decreases entries.len() - i,
    {
        let e = &entries[i];
        let hit = if pattern.len() == 0 {
            true
        } else {
            match &re {
                None => false,
                Some(c) => if regex_is_match(c, e.path.as_str()) {
                    true
                } else {
                    match &re_ci {
                        None => false,
                        Some(c2) => regex_is_match(c2, e.path.as_str()),
                    }
                },
            }
        };
        assert(hit == sel(entries@[i as int]));
        hits.push(hit);
        i = i + 1;
    }
    proof {
        assert(hits@ =~= query_hits(
            entries@,
            crate::trash::strings_view(words@),
            restrict,
            crate::trash::opt_view(cwd),
        ));
    }
    answer_query(entries, &hits, echo, list, by, words.len() == 0 && !restrict, now)
}

/// Answers a query whose matches are flagged in `hits` (one flag per
/// entry; see `answer_from`).
pub fn answer_query(
    entries: &Vec<NavEntry>,
    hits: &Vec<bool>,
    echo: bool,
    list: bool,
    by: RankBy,
    open: bool,
    now: u64,
) -> (r: QueryOutcome)
    requires
        hits.len() == entries.len(),
    ensures
        answer_of(r) == answer_from(entries@, hits@, echo, list, by, open, now as nat),
{
    if entries.len() == 0 {
        return QueryOutcome::Nothing;
    }
    let ghost to_scored = |e: NavEntry| scored(e, by, now as nat);
    let mut found: Vec<Scored> = Vec::new();
    let mut i: usize = 0;
    while i < entries.len()
        invariant
            i <= entries.len(),
            hits.len() == entries.len(),
            to_scored == (|e: NavEntry| scored(e, by, now as nat)),
            found@ == picked(entries@.take(i as int), hits@.take(i as int)).map_values(to_scored),
        decreases entries.len() - i,
    {
        let e = &entries[i];
        proof {
            let t = entries@.take(i + 1);
            assert(t.drop_last() =~= entries@.take(i as int));
            assert(hits@.take(i + 1).take(i as int) =~= hits@.take(i as int));
            assert(t.last() == entries@[i as int]);
            assert(hits@.take(i + 1)[i as int] == hits@[i as int]);
        }
        if hits[i] {
            let score: u64 = match by {
                RankBy::Rank => e.rank,
                RankBy::Recent => e.time,
                RankBy::Frecency => frecency(e.rank, if now >= e.time {
                    now - e.time
                } else {
                    0
                }),
            };
            found.push(Scored { path: e.path.clone(), score });
            proof {
                let f = picked(entries@.take(i as int), hits@.take(i as int));
                assert(picked(entries@.take(i + 1), hits@.take(i + 1)) =~= f.push(entries@[i as int]));
                assert(f.push(entries@[i as int]).map_values(to_scored) =~= f.map_values(to_scored).push(
                    to_scored(entries@[i as int]),
                ));
            }
        } else {
            proof {
                let f = picked(entries@.take(i as int), hits@.take(i as int));
                assert(picked(entries@.take(i + 1), hits@.take(i + 1)) =~= f);
            }
        }
        i = i + 1;
    }
    assert(entries@.take(entries.len() as int) =~= entries@);
    assert(hits@.take(entries.len() as int) =~= hits@);
    if found.len() == 0 {
        return QueryOutcome::Nothing;
    }
    let sorted = sort_scores(found);
    if list || open {
        return QueryOutcome::Listing(sorted);
    }
    let by_frecency = match by {
        RankBy::Frecency => true,
        _ => false,
    };
    if by_frecency && !echo {
        match common_prefix(&sorted) {
            Some(c) => {
                return QueryOutcome::Jump(c);
            },
            None => {},
        }
    }
    proof {
        assert(sorted@.len() > 0) by {
            lemma_sorted_by_score_len(found@);
        }
    }
    QueryOutcome::Jump(sorted[0].path.clone())
}

proof fn lemma_sorted_by_score_len(s: Seq<Scored>)
    ensures
        sorted_by_score(s).len() == s.len(),
    decreases s.len(),
{
    if s.len() > 0 {
        lemma_sorted_by_score_len(s.drop_last());
        let t = sorted_by_score(s.drop_last());
        lemma_score_position_bound(t, s.last());
    }
}

proof fn lemma_score_position_bound(s: Seq<Scored>, x: Scored)
    ensures
        score_position(s, x) <= s.len(),
    decreases s.len(),
{
    if s.len() > 0 && s[0].score >= x.score {
        lemma_score_position_bound(s.drop_first(), x);
    }
}

/// A line of a listing: the score right-aligned in ten columns, two spaces,
/// and the path.
pub open spec fn listing_line_text(s: Scored) -> Seq<char> {
    let d = decimal_text(s.score as nat);
    (if d.len() >= 10 {
        d
    } else {
        Seq::new((10 - d.len()) as nat, |i: int| ' ') + d
    }) + seq![' ', ' '] + s.path@
}

pub fn listing_line(s: &Scored) -> (r: String)
    ensures
        r@ == listing_line_text(*s),
{
    let mut d: Vec<char> = Vec::new();
    push_decimal(&mut d, s.score as u128);
    let mut out: Vec<char> = Vec::new();
    if d.len() < 10 {
        let pad = 10 - d.len();
        let mut i: usize = 0;
        while i < pad
            invariant
                i <= pad,
                out@ == Seq::new(i as nat, |j: int| ' '),
            decreases pad - i,
        {
            out.push(' ');
            assert(Seq::new((i + 1) as nat, |j: int| ' ') =~= Seq::new(i as nat, |j: int| ' ').push(' '));
            i = i + 1;
        }
    }
    let ghost pad_part = out@;
    let mut i: usize = 0;
    while i < d.len()
        invariant
            i <= d.len(),
            out@ == pad_part + d@.take(i as int),
        decreases d.len() - i,
    {
        out.push(d[i]);
        assert(d@.take(i + 1) =~= d@.take(i as int).push(d@[i as int]));
        i = i + 1;
    }
    assert(d@.take(d.len() as int) =~= d@);
    out.push(' ');
    out.push(' ');
    push_str(&mut out, s.path.as_str());
    proof {
        if d@.len() >= 10 {
            assert(pad_part =~= Seq::<char>::empty());
        }
        assert(out@ =~= listing_line_text(*s));
    }
    string_of(&out)
}

} // verus!
