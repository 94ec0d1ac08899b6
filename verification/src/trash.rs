//! The trash: where removed files go, how they are listed, restored and cleaned.
use crate::decimal::{all_digits, digit_value, digits_value, is_digit, min_nat, span};
use crate::duration::{duration_of, parse_duration, DurationError};
use crate::size::{parse_size, size_of_text};
use crate::text::{chars_of, decimal_text, push_decimal, push_str, string_of, trim, trim_bounds};
use vstd::prelude::*;

verus! {

/// One item in the trash.
#[derive(Debug, Clone)]
pub struct TrashEntry {
    /// Its name inside the trash directory: `<nanoseconds>_<file name>`.
    pub trash_name: String,
    /// Where it was before it was trashed.
    pub original_path: String,
    /// Its size in bytes.
    pub size: u64,
    /// When it was trashed, in nanoseconds since the Unix epoch.
    pub trashed_at: u64,
}

impl TrashEntry {
    /// A copy of the entry.
    pub fn duplicate(&self) -> (r: TrashEntry)
        ensures
            r == *self,
    {
        TrashEntry {
            trash_name: self.trash_name.clone(),
            original_path: self.original_path.clone(),
            size: self.size,
            trashed_at: self.trashed_at,
        }
    }
}

/// The automatic clean-up settings (`config.json` in the trash directory).
#[derive(Debug, Clone)]
pub struct RamConfig {
    /// Once the trash holds more than this size, the oldest entries go.
    pub max_size: Option<String>,
    /// Entries older than this go.
    pub max_age: Option<String>,
}

// ── the configuration file ──────────────────────────────────────
#[verifier::external_type_specification]
#[verifier::external_body]
pub struct ExJsonValue(serde_json::Value);

/// Whether `serde_json` reads `text` as a JSON value.
pub uninterp spec fn json_reads(text: Seq<char>) -> bool;

/// The string member `key` of the JSON object that `text` holds, when it has
/// one that is a string.
pub uninterp spec fn json_string_member(text: Seq<char>, key: Seq<char>) -> Option<Seq<char>>;

/// A JSON value, with the text it was read from.
struct JsonDoc {
    source: String,
    value: serde_json::Value,
}

impl JsonDoc {
    closed spec fn text(&self) -> Seq<char> {
        self.source@
    }
}

/// `serde_json::from_str` into a `serde_json::Value`: whether it succeeds is
/// a fixed function of the text, named `json_reads` here. Its error is not
/// kept; the value it gives is kept with the text it was read from.
#[verifier::external_body]
fn json_from_str(text: &str) -> (r: Option<JsonDoc>)
    ensures
        r is Some == json_reads(text@),
        r matches Some(doc) ==> doc.text() == text@,
{
    match serde_json::from_str::<serde_json::Value>(text) {
        Ok(value) => Some(JsonDoc { source: text.to_owned(), value }),
        Err(_) => None,
    }
}

/// `serde_json::Value::get` with the key `key`, on the value that `doc`
/// holds, keeping the member only when it is a string: a fixed function of
/// the text the value was read from and the key, named `json_string_member`
/// here (only `json_from_str` builds a `JsonDoc`, from the value that
/// `serde_json` read from that text).
#[verifier::external_body]
fn json_string_at(doc: &JsonDoc, key: &str) -> (r: Option<String>)
    ensures
        opt_view(r) == json_string_member(doc.text(), key@),
{
    match doc.value.get(key) {
        Some(serde_json::Value::String(s)) => Some(s.clone()),
        Some(_) => None,
        None => None,
    }
}

/// The settings written in the text of a configuration file: the string
/// members `max_size` and `max_age` of a JSON object; none when the text is
/// not JSON.
pub fn config_from_text(text: &str) -> (c: RamConfig)
    ensures
        opt_view(c.max_size) == (if json_reads(text@) {
            json_string_member(text@, "max_size"@)
        } else {
            None
        }),
        opt_view(c.max_age) == (if json_reads(text@) {
            json_string_member(text@, "max_age"@)
        } else {
            None
        }),
{
    match json_from_str(text) {
        None => RamConfig { max_size: None, max_age: None },
        Some(doc) => {
            let max_size = json_string_at(&doc, "max_size");
            let max_age = json_string_at(&doc, "max_age");
            RamConfig { max_size, max_age }
        },
    }
}

// ── paths ───────────────────────────────────────────────────────
/// `base` joined with `name`, as `PathBuf::push` does it: an absolute `name`
/// replaces `base`, otherwise a `/` goes between them unless `base` is empty
/// or already ends in one.
pub open spec fn joined(base: Seq<char>, name: Seq<char>) -> Seq<char> {
    if name.len() > 0 && name[0] == '/' {
        name
    } else if base.len() == 0 || base.last() == '/' {
        base + name
    } else {
        base + seq!['/'] + name
    }
}

pub fn path_join(base: &str, name: &str) -> (r: String)
    ensures
        r@ == joined(base@, name@),
{
    let b = chars_of(base);
    let n = chars_of(name);
    if n.len() > 0 && n[0] == '/' {
        return string_of(&n);
    }
    let mut out = b.clone();
    if !(b.len() == 0 || b[b.len() - 1] == '/') {
        out.push('/');
    }
    let mut i: usize = 0;
    let ghost start = out@;
    while i < n.len()
        invariant
            i <= n.len(),
            out@ == start + n@.take(i as int),
        decreases n.len() - i,
    {
        out.push(n[i]);
        assert(n@.take(i + 1) =~= n@.take(i as int).push(n@[i as int]));
        i = i + 1;
    }
    proof {
        assert(n@.take(n.len() as int) =~= n@);
        if b.len() == 0 || b@.last() == '/' {
            assert(out@ =~= base@ + name@);
        } else {
            assert(out@ =~= base@ + seq!['/'] + name@);
        }
    }
    string_of(&out)
}

pub open spec fn trash_dir_of(home: Option<Seq<char>>) -> Seq<char> {
    joined(
        match home {
            Some(h) => h,
            None => seq!['/', 't', 'm', 'p'],
        },
        seq!['.', 'r', 'a', 'm', '_', 't', 'r', 'a', 's', 'h'],
    )
}

pub open spec fn opt_view(s: Option<String>) -> Option<Seq<char>> {
    match s {
        Some(x) => Some(x@),
        None => None,
    }
}

/// The trash directory, `.ram_trash` in the home directory (`$HOME`, or
/// `/tmp` when it is not set).
pub fn trash_dir(home: Option<String>) -> (r: String)
    ensures
        r@ == trash_dir_of(opt_view(home)),
{
    let base = match home {
        Some(h) => h,
        None => String::from_str("/tmp"),
    };
    proof {
        reveal_strlit("/tmp");
        reveal_strlit(".ram_trash");
    }
    path_join(base.as_str(), ".ram_trash")
}

/// The clean-up settings file, `config.json` in the trash directory.
pub fn config_path(home: Option<String>) -> (r: String)
    ensures
        r@ == joined(trash_dir_of(opt_view(home)), config_name()),
{
    let d = trash_dir(home);
    proof {
        reveal_strlit("config.json");
    }
    path_join(d.as_str(), "config.json")
}

/// The name under which a file goes into the trash: the time in nanoseconds,
/// `_`, and its file name.
pub open spec fn trash_name_text(stamp: nat, file_name: Seq<char>) -> Seq<char> {
    decimal_text(stamp) + seq!['_'] + file_name
}

pub fn trash_name_for(stamp: u128, file_name: &str) -> (r: String)
    ensures
        r@ == trash_name_text(stamp as nat, file_name@),
{
    let mut out: Vec<char> = Vec::new();
    push_decimal(&mut out, stamp);
    out.push('_');
    push_str(&mut out, file_name);
    string_of(&out)
}

/// The hidden file beside a trashed item that records where it came from.
pub open spec fn meta_name_text(trash_name: Seq<char>) -> Seq<char> {
    seq!['.'] + trash_name + seq!['.', 'm', 'e', 't', 'a']
}

pub fn meta_name(trash_name: &str) -> (r: String)
    ensures
        r@ == meta_name_text(trash_name@),
{
    let mut out: Vec<char> = Vec::new();
    out.push('.');
    push_str(&mut out, trash_name);
    out.push('.');
    out.push('m');
    out.push('e');
    out.push('t');
    out.push('a');
    proof {
        assert(out@ =~= meta_name_text(trash_name@));
    }
    string_of(&out)
}

/// `path` made absolute against the working directory `cwd` (unknown or
/// empty: left as it is).
pub open spec fn absolute_text(path: Seq<char>, cwd: Seq<char>) -> Seq<char> {
    if path.len() > 0 && path[0] == '/' {
        path
    } else if cwd.len() == 0 {
        path
    } else {
        joined(cwd, path)
    }
}

pub fn absolute_path(path: &str, cwd: &str) -> (r: String)
    ensures
        r@ == absolute_text(path@, cwd@),
{
    let p = chars_of(path);
    let c = chars_of(cwd);
    if (p.len() > 0 && p[0] == '/') || c.len() == 0 {
        string_of(&p)
    } else {
        path_join(cwd, path)
    }
}

// ── listing ─────────────────────────────────────────────────────
/// An unsigned integer as std's `FromStr` reads it: an optional `+` and at
/// least one digit, at most `max`.
pub open spec fn unsigned_value(s: Seq<char>, max: nat) -> Option<nat> {
    let d = if s.len() > 0 && s[0] == '+' {
        s.drop_first()
    } else {
        s
    };
    if d.len() > 0 && all_digits(d) && digits_value(d) <= max {
        Some(digits_value(d))
    } else {
        None
    }
}

/// Reads `v[lo..hi]` as an unsigned integer no larger than `max`.
pub fn parse_unsigned(v: &Vec<char>, lo: usize, hi: usize, max: u128) -> (r: Option<u128>)
    requires
        lo <= hi <= v.len(),
    ensures
        match r {
            Some(n) => unsigned_value(span(v@, lo, hi), max as nat) == Some(n as nat),
            None => unsigned_value(span(v@, lo, hi), max as nat) is None,
        },
{
    let ghost s = span(v@, lo, hi);
    let start = if lo < hi && v[lo] == '+' {
        lo + 1
    } else {
        lo
    };
    let ghost d = span(v@, start, hi);
    proof {
        if lo < hi && v@[lo as int] == '+' {
            assert(s.drop_first() =~= d);
        } else {
            assert(s =~= d);
        }
        assert(span(v@, start, start) =~= Seq::<char>::empty());
    }
    if start == hi {
        return None;
    }
    let mut x: u128 = 0;
    let mut i = start;
    while i < hi
        invariant
            lo <= start <= i <= hi <= v.len(),
            d == span(v@, start, hi),
            unsigned_value(span(v@, lo, hi), max as nat) == (if d.len() > 0 && all_digits(d)
                && digits_value(d) <= max {
                Some(digits_value(d))
            } else {
                None::<nat>
            }),
            all_digits(span(v@, start, i)),
            x == digits_value(span(v@, start, i)),
            x <= max,
        decreases hi - i,
    {
        let c = v[i];
        let cv = c as u32;
        let ghost pre = span(v@, start, i);
        assert(span(v@, start, (i + 1) as usize) =~= pre.push(c));
        if cv < '0' as u32 || cv > '9' as u32 {
            proof {
                assert(d[i - start] == c);
                assert(!is_digit(d[i - start]));
            }
            return None;
        }
        proof {
            crate::decimal::lemma_digits_value_push(pre, c);
            assert(all_digits(pre.push(c))) by {
                assert forall|j: int| 0 <= j < pre.push(c).len() implies #[trigger] is_digit(
                    pre.push(c)[j],
                ) by {
                    if j < pre.len() {
                        assert(pre.push(c)[j] == pre[j]);
                    }
                }
            }
        }
        let dv = (cv - '0' as u32) as u128;
        let too_big = if x > max / 10 {
            true
        } else {
            assert(x * 10 <= max) by (nonlinear_arith)
                requires
                    x <= max / 10,
            ;
            dv > max - x * 10
        };
        if too_big {
            proof {
                assert(x * 10 + dv > max) by (nonlinear_arith)
                    requires
                        x > max / 10 || dv > max - x * 10,
                ;
                // every later digit keeps the value above max
                crate::decimal::lemma_digits_value_concat(
                    span(v@, start, (i + 1) as usize),
                    span(v@, (i + 1) as usize, hi),
                );
                assert(span(v@, start, (i + 1) as usize) + span(v@, (i + 1) as usize, hi) =~= d);
                crate::decimal::lemma_pow10_positive((hi - (i + 1)) as nat);
                let a = digits_value(span(v@, start, (i + 1) as usize));
                let p = crate::decimal::pow10((hi - (i + 1)) as nat);
                assert(a * p >= a) by (nonlinear_arith)
                    requires
                        p >= 1,
                ;
            }
            return None;
        }
        x = x * 10 + dv;
        i = i + 1;
    }
    Some(x)
}

/// When the name of a trash item says it was trashed: the number before the
/// first `_`, read as a `u128` (0 when it is not one), kept to its low 64
/// bits (the nanoseconds are converted to a `u64` by `as`).
pub open spec fn stamp_of_name(name: Seq<char>) -> nat {
    let head = match crate::decimal::first_index_of(name, '_') {
        Some(i) => name.take(i as int),
        None => name,
    };
    match unsigned_value(head, 0xFFFF_FFFF_FFFF_FFFF_FFFF_FFFF_FFFF_FFFF) {
        Some(n) => n % 0x1_0000_0000_0000_0000,
        None => 0,
    }
}

/// A digit's character is a digit, and it reads back as the digit.
pub proof fn lemma_digit_char(d: nat)
    requires
        d < 10,
    ensures
        is_digit(crate::text::digit_char(d)),
        digit_value(crate::text::digit_char(d)) == d,
{
}

/// A number written in decimal is a non-empty run of digits that reads
/// back as the number.
pub proof fn lemma_decimal_text(n: nat)
    ensures
        decimal_text(n).len() > 0,
        all_digits(decimal_text(n)),
        digits_value(decimal_text(n)) == n,
    decreases n,
{
    lemma_digit_char(n % 10);
    if n < 10 {
        let d = decimal_text(n);
        assert(d.drop_last() =~= Seq::<char>::empty());
        assert(n % 10 == n);
        assert(digits_value(d.drop_last()) == 0);
        assert(digits_value(d) == digits_value(d.drop_last()) * 10 + digit_value(d.last()));
        assert(is_digit(d[0]));
    } else {
        lemma_decimal_text(n / 10);
        let t = decimal_text(n / 10);
        let d = decimal_text(n);
        assert(d.drop_last() =~= t);
        assert(d.last() == crate::text::digit_char(n % 10));
        assert(n == (n / 10) * 10 + n % 10) by (nonlinear_arith);
        assert(digits_value(d) == digits_value(t) * 10 + digit_value(d.last()));
        assert forall|i: int| 0 <= i < d.len() implies #[trigger] is_digit(d[i]) by {
            if i < t.len() {
                assert(d[i] == t[i]);
            }
        }
    }
}

/// What the trash listing reads back of what trashing wrote: an item put in
/// the trash at `stamp` nanoseconds (a time a `SystemTime` holds), under the
/// name `<stamp>_<file name>` with its original path recorded beside it,
/// lists with that name, that path (one without white space at its ends)
/// and that time.
pub proof fn lemma_trash_round_trip(stamp: nat, file_name: Seq<char>, original: Seq<char>, size: nat)
    requires
        stamp < 0x1_0000_0000_0000_0000,
        trim(original) == original,
    ensures
        entry_of(trash_name_text(stamp, file_name), size, Some(original)) == Some(
            (trash_name_text(stamp, file_name), original, size, stamp),
        ),
{
    let digits = decimal_text(stamp);
    let name = trash_name_text(stamp, file_name);
    lemma_decimal_text(stamp);
    assert forall|i: int| 0 <= i < digits.len() implies #[trigger] name[i] != '_' by {
        assert(name[i] == digits[i]);
        assert(is_digit(digits[i]));
    }
    assert(name[digits.len() as int] == '_');
    crate::decimal::lemma_first_index_of(name, '_', digits.len());
    assert(name.take(digits.len() as int) =~= digits);
    assert(is_digit(digits[0]));
    assert(name[0] == digits[0]);
}

/// The entry for an item named `name` in the trash, of `size` bytes, whose
/// record of its original place holds `meta` when there is one. Names that
/// start with `.` (the records themselves) and `config.json` (the settings
/// of the automatic clean-up) are no entries.
pub open spec fn entry_of(name: Seq<char>, size: nat, meta: Option<Seq<char>>) -> Option<(Seq<char>, Seq<char>, nat, nat)> {
    if (name.len() > 0 && name[0] == '.') || name == config_name() {
        None
    } else {
        Some(
            (
                name,
                match meta {
                    Some(m) => trim(m),
                    None => name,
                },
                size,
                stamp_of_name(name),
            ),
        )
    }
}

/// The name of the settings file in the trash directory.
pub open spec fn config_name() -> Seq<char> {
    seq!['c', 'o', 'n', 'f', 'i', 'g', '.', 'j', 's', 'o', 'n']
}

pub open spec fn entry_fields(e: TrashEntry) -> (Seq<char>, Seq<char>, nat, nat) {
    (e.trash_name@, e.original_path@, e.size as nat, e.trashed_at as nat)
}

pub fn trash_entry(name: String, size: u64, meta: Option<String>) -> (r: Option<TrashEntry>)
    ensures
        match r {
            Some(e) => entry_of(name@, size as nat, opt_view(meta)) == Some(entry_fields(e)),
            None => entry_of(name@, size as nat, opt_view(meta)) is None,
        },
{
    let cs = chars_of(name.as_str());
    if cs.len() > 0 && cs[0] == '.' {
        return None;
    }
    proof {
        assert(['c', 'o', 'n', 'f', 'i', 'g', '.', 'j', 's', 'o', 'n']@ =~= config_name());
    }
    if crate::text::range_is(&cs, 0, cs.len(), &['c', 'o', 'n', 'f', 'i', 'g', '.', 'j', 's', 'o', 'n']) {
        assert(cs@.subrange(0, cs.len() as int) =~= name@);
        return None;
    }
    assert(cs@.subrange(0, cs.len() as int) =~= name@);
    // the stamp before the first '_'
    let mut k: usize = 0;
    while k < cs.len() && cs[k] != '_'
        invariant
            k <= cs.len(),
            forall|i: int| 0 <= i < k ==> cs@[i] != '_',
        decreases cs.len() - k,
    {
        k = k + 1;
    }
    proof {
        crate::decimal::lemma_first_index_of(cs@, '_', k as nat);
        if k < cs.len() {
            assert(cs@.take(k as int) =~= span(cs@, 0, k));
        } else {
            assert(cs@ =~= span(cs@, 0, k));
        }
    }
    let stamp = match parse_unsigned(&cs, 0, k, 0xFFFF_FFFF_FFFF_FFFF_FFFF_FFFF_FFFF_FFFFu128) {
        Some(n) => (n % 0x1_0000_0000_0000_0000u128) as u64,
        None => 0,
    };
    let original = match meta {
        Some(m) => {
            let mc = chars_of(m.as_str());
            let (a, b) = trim_bounds(&mc, 0, mc.len());
            proof {
                assert(mc@.subrange(0, mc.len() as int) =~= m@);
            }
            crate::text::string_of_range(&mc, a, b)
        },
        None => name.clone(),
    };
    Some(TrashEntry { trash_name: name, original_path: original, size, trashed_at: stamp })
}

// ── ordering ────────────────────────────────────────────────────
/// Whether `e` stays ahead of a later `x` when sorting by time, newest first
/// (`desc`) or oldest first; equal times keep their order.
pub open spec fn stays_ahead(e: TrashEntry, x: TrashEntry, desc: bool) -> bool {
    if desc {
        e.trashed_at >= x.trashed_at
    } else {
        e.trashed_at <= x.trashed_at
    }
}

/// Where `x` goes in the sorted `s`: after every entry that stays ahead of it.
pub open spec fn insert_position(s: Seq<TrashEntry>, x: TrashEntry, desc: bool) -> nat
    decreases s.len(),
{
    if s.len() > 0 && stays_ahead(s[0], x, desc) {
        1 + insert_position(s.drop_first(), x, desc)
    } else {
        0
    }
}

pub open spec fn insert_sorted(s: Seq<TrashEntry>, x: TrashEntry, desc: bool) -> Seq<TrashEntry> {
    let p = insert_position(s, x, desc) as int;
    s.take(p) + seq![x] + s.skip(p)
}

/// `s` sorted by time, stably: what `sort_by_key` gives.
pub open spec fn sorted_by_time(s: Seq<TrashEntry>, desc: bool) -> Seq<TrashEntry>
    decreases s.len(),
{
    if s.len() == 0 {
        s
    } else {
        insert_sorted(sorted_by_time(s.drop_last(), desc), s.last(), desc)
    }
}

proof fn lemma_insert_position(s: Seq<TrashEntry>, x: TrashEntry, desc: bool, k: nat)
    requires
        k <= s.len(),
        forall|i: int| 0 <= i < k ==> stays_ahead(#[trigger] s[i], x, desc),
        k == s.len() || !stays_ahead(s[k as int], x, desc),
    ensures
        insert_position(s, x, desc) == k,
    decreases k,
{
    if k > 0 {
        let t = s.drop_first();
        assert forall|i: int| 0 <= i < k - 1 implies stays_ahead(#[trigger] t[i], x, desc) by {
            assert(t[i] == s[i + 1]);
            assert(stays_ahead(s[i + 1], x, desc));
        }
        if k < s.len() {
            assert(t[k - 1] == s[k as int]);
        }
        lemma_insert_position(t, x, desc, (k - 1) as nat);
        assert(stays_ahead(s[0], x, desc));
    }
}

/// Entries in order of time: each stays ahead of every later one.
pub open spec fn time_sorted(s: Seq<TrashEntry>, desc: bool) -> bool {
    forall|i: int, j: int| 0 <= i < j < s.len() ==> stays_ahead(#[trigger] s[i], #[trigger] s[j], desc)
}

proof fn lemma_insert_position_facts(s: Seq<TrashEntry>, x: TrashEntry, desc: bool)
    ensures
        insert_position(s, x, desc) <= s.len(),
        forall|i: int| 0 <= i < insert_position(s, x, desc) ==> stays_ahead(#[trigger] s[i], x, desc),
        insert_position(s, x, desc) < s.len() ==> !stays_ahead(s[insert_position(s, x, desc) as int], x, desc),
    decreases s.len(),
{
    if s.len() > 0 && stays_ahead(s[0], x, desc) {
        let t = s.drop_first();
        lemma_insert_position_facts(t, x, desc);
        assert forall|i: int| 0 <= i < insert_position(s, x, desc) implies stays_ahead(#[trigger] s[i], x, desc) by {
            if i > 0 {
                assert(s[i] == t[i - 1]);
            }
        }
        if insert_position(s, x, desc) < s.len() {
            assert(s[insert_position(s, x, desc) as int] == t[insert_position(t, x, desc) as int]);
        }
    }
}

proof fn lemma_insert_keeps_sorted(s: Seq<TrashEntry>, x: TrashEntry, desc: bool)
    requires
        time_sorted(s, desc),
    ensures
        time_sorted(insert_sorted(s, x, desc), desc),
        insert_sorted(s, x, desc).to_multiset() == s.to_multiset().insert(x),
{
    lemma_insert_position_facts(s, x, desc);
    let p = insert_position(s, x, desc) as int;
    let q = insert_sorted(s, x, desc);
    assert(q =~= s.take(p) + seq![x] + s.skip(p));
    assert forall|i: int, j: int| 0 <= i < j < q.len() implies stays_ahead(#[trigger] q[i], #[trigger] q[j], desc) by {
        if j < p {
            assert(q[i] == s[i] && q[j] == s[j]);
        } else if j == p {
            assert(q[i] == s[i] && q[j] == x);
        } else if i < p {
            assert(q[i] == s[i] && q[j] == s[j - 1]);
            assert(stays_ahead(s[i], x, desc));
        } else if i == p {
            assert(q[i] == x && q[j] == s[j - 1]);
            if p < j - 1 {
                assert(stays_ahead(s[p], s[j - 1], desc));
            }
        } else {
            assert(q[i] == s[i - 1] && q[j] == s[j - 1]);
        }
    }
    vstd::seq_lib::lemma_multiset_commutative(s.take(p) + seq![x], s.skip(p));
    vstd::seq_lib::lemma_multiset_commutative(s.take(p), seq![x]);
    vstd::seq_lib::lemma_multiset_commutative(s.take(p), s.skip(p));
    assert(s.take(p) + s.skip(p) =~= s);
    assert(seq![x].to_multiset() =~= vstd::multiset::Multiset::empty().insert(x)) by {
        broadcast use vstd::seq_lib::group_to_multiset_ensures;
        assert(seq![x] =~= Seq::<TrashEntry>::empty().push(x));
    }
    assert(q.to_multiset() =~= s.to_multiset().insert(x));
}

/// Sorting by time gives the same entries, each stays ahead of every later
/// one (newest first, or oldest first).
pub proof fn lemma_sorted_by_time(s: Seq<TrashEntry>, desc: bool)
    ensures
        time_sorted(sorted_by_time(s, desc), desc),
        sorted_by_time(s, desc).to_multiset() == s.to_multiset(),
        total_size(sorted_by_time(s, desc)) == total_size(s),
    decreases s.len(),
{
    if s.len() == 0 {
    } else {
        let t = sorted_by_time(s.drop_last(), desc);
        lemma_sorted_by_time(s.drop_last(), desc);
        lemma_insert_keeps_sorted(t, s.last(), desc);
        assert(s.drop_last().push(s.last()) =~= s);
        vstd::seq_lib::to_multiset_build(s.drop_last(), s.last());
        lemma_insert_position_facts(t, s.last(), desc);
        let p = insert_position(t, s.last(), desc) as int;
        lemma_total_size_concat(t.take(p) + seq![s.last()], t.skip(p));
        lemma_total_size_concat(t.take(p), seq![s.last()]);
        lemma_total_size_concat(t.take(p), t.skip(p));
        assert(t.take(p) + t.skip(p) =~= t);
        let one = seq![s.last()];
        assert(one.drop_last() =~= Seq::<TrashEntry>::empty());
        assert(total_size(one.drop_last()) == 0);
        assert(one.last() == s.last());
        assert(total_size(one) == s.last().size as nat);
        assert(sorted_by_time(s, desc) =~= t.take(p) + seq![s.last()] + t.skip(p));
    }
}

/// The total of two runs of entries is the sum of their totals.
pub proof fn lemma_total_size_concat(a: Seq<TrashEntry>, b: Seq<TrashEntry>)
    ensures
        total_size(a + b) == total_size(a) + total_size(b),
    decreases b.len(),
{
    if b.len() == 0 {
        assert(a + b =~= a);
    } else {
        lemma_total_size_concat(a, b.drop_last());
        assert((a + b).drop_last() =~= a + b.drop_last());
    }
}

/// Sorts entries by the time they were trashed, newest first (`desc`) or
/// oldest first, keeping the order of entries trashed at the same time.
pub fn sort_by_time(entries: Vec<TrashEntry>, desc: bool) -> (r: Vec<TrashEntry>)
    ensures
        r@ == sorted_by_time(entries@, desc),
{
    let mut out: Vec<TrashEntry> = Vec::new();
    let mut i: usize = 0;
    while i < entries.len()
        invariant
            i <= entries.len(),
            out@ == sorted_by_time(entries@.take(i as int), desc),
        decreases entries.len() - i,
    {
        let x = entries[i].duplicate();
        let mut k: usize = 0;
        while k < out.len() && ((desc && out[k].trashed_at >= x.trashed_at) || (!desc
            && out[k].trashed_at <= x.trashed_at))
            invariant
                k <= out.len(),
                forall|j: int| 0 <= j < k ==> stays_ahead(#[trigger] out@[j], x, desc),
            decreases out.len() - k,
        {
            k = k + 1;
        }
        proof {
            lemma_insert_position(out@, x, desc, k as nat);
            assert(entries@.take(i + 1).drop_last() =~= entries@.take(i as int));
            assert(entries@.take(i + 1).last() == x);
        }
        let ghost before = out@;
        out.insert(k, x);
        proof {
            assert(out@ =~= before.take(k as int) + seq![x] + before.skip(k as int));
        }
        i = i + 1;
    }
    proof {
        assert(entries@.take(entries.len() as int) =~= entries@);
    }
    out
}

// ── selecting ───────────────────────────────────────────────────
/// The earliest time not older than `older` before `now` (nanoseconds since
/// the epoch), as `SystemTime::checked_sub` gives it, falling back to the
/// epoch when the time cannot be represented.
pub open spec fn cutoff(now: int, older: nat) -> int {
    if now - older < -9_223_372_036_854_775_808_000_000_000 {
        0
    } else {
        now - older
    }
}

pub fn cutoff_time(now: i128, older: u128) -> (r: i128)
    requires
        -9_223_372_036_854_775_808_000_000_000 <= now <= 9_223_372_036_854_775_807_999_999_999,
    ensures
        r == cutoff(now as int, older as nat),
{
    // nanoseconds of the earliest time a SystemTime holds
    let least: i128 = -9_223_372_036_854_775_808_000_000_000;
    let room = (now - least) as u128;
    if older > room {
        0
    } else {
        now - older as i128
    }
}

pub open spec fn total_size(s: Seq<TrashEntry>) -> nat
    decreases s.len(),
{
    if s.len() == 0 {
        0
    } else {
        total_size(s.drop_last()) + s.last().size as nat
    }
}

/// The sum of the sizes of `entries`.
pub fn sum_sizes(entries: &Vec<TrashEntry>) -> (r: u64)
    requires
        total_size(entries@) <= 0xFFFF_FFFF_FFFF_FFFF,
    ensures
        r == total_size(entries@),
{
    let mut t: u64 = 0;
    let mut i: usize = 0;
    while i < entries.len()
        invariant
            i <= entries.len(),
            t == total_size(entries@.take(i as int)),
            total_size(entries@) <= 0xFFFF_FFFF_FFFF_FFFF,
        decreases entries.len() - i,
    {
        proof {
            assert(entries@.take(i + 1).drop_last() =~= entries@.take(i as int));
            lemma_total_size_prefix(entries@, (i + 1) as nat);
        }
        t = t + entries[i].size;
        i = i + 1;
    }
    assert(entries@.take(entries.len() as int) =~= entries@);
    t
}

proof fn lemma_total_size_prefix(s: Seq<TrashEntry>, k: nat)
    requires
        k <= s.len(),
    ensures
        total_size(s.take(k as int)) <= total_size(s),
    decreases s.len(),
{
    if k < s.len() {
        lemma_total_size_prefix(s.drop_last(), k);
        assert(s.drop_last().take(k as int) =~= s.take(k as int));
    } else {
        assert(s.take(k as int) =~= s);
    }
}

/// Whether an entry goes in a clean-up: trashed before the cut-off, when
/// there is an age limit, and larger than `larger` bytes, when there is a size
/// limit.
pub open spec fn clean_selects(
    e: TrashEntry,
    now: int,
    older: Option<u128>,
    larger: Option<u64>,
) -> bool {
    (match older {
        Some(d) => (e.trashed_at as int) < cutoff(now, d as nat),
        None => true,
    }) && (match larger {
        Some(m) => e.size > m,
        None => true,
    })
}

pub open spec fn clean_selection(
    s: Seq<TrashEntry>,
    now: int,
    older: Option<u128>,
    larger: Option<u64>,
) -> Seq<TrashEntry> {
    s.filter(|e: TrashEntry| clean_selects(e, now, older, larger))
}

/// The entries a clean-up removes, in the order given, and their total size.
pub fn clean_trash(
    entries: Vec<TrashEntry>,
    now: i128,
    older_than: Option<u128>,
    larger_than: Option<u64>,
) -> (r: (Vec<TrashEntry>, u64))
    requires
        -9_223_372_036_854_775_808_000_000_000 <= now <= 9_223_372_036_854_775_807_999_999_999,
        total_size(clean_selection(entries@, now as int, older_than, larger_than))
            <= 0xFFFF_FFFF_FFFF_FFFF,
    ensures
        r.0@ == clean_selection(entries@, now as int, older_than, larger_than),
        r.1 == total_size(r.0@),
{
    let cut: i128 = match older_than {
        Some(d) => cutoff_time(now, d),
        None => 0,
    };
    let ghost pred = |e: TrashEntry| clean_selects(e, now as int, older_than, larger_than);
    let mut out: Vec<TrashEntry> = Vec::new();
    let mut i: usize = 0;
    while i < entries.len()
        invariant
            i <= entries.len(),
            older_than is Some ==> cut == cutoff(now as int, older_than->0 as nat),
            pred == (|e: TrashEntry| clean_selects(e, now as int, older_than, larger_than)),
            out@ == entries@.take(i as int).filter(pred),
        decreases entries.len() - i,
    {
        let e = &entries[i];
        let keep = (match older_than {
            Some(_) => (e.trashed_at as i128) < cut,
            None => true,
        }) && (match larger_than {
            Some(m) => e.size > m,
            None => true,
        });
        proof {
            assert(entries@.take(i + 1) =~= entries@.take(i as int).push(entries@[i as int]));
            entries@.take(i as int).lemma_filter_push(entries@[i as int], pred);
            assert(keep == pred(entries@[i as int]));
        }
        if keep {
            out.push(e.duplicate());
        }
        i = i + 1;
    }
    assert(entries@.take(entries.len() as int) =~= entries@);
    let total = sum_sizes(&out);
    (out, total)
}

// ── restoring ───────────────────────────────────────────────────
/// Whether `needle` occurs in `hay`.
pub open spec fn contains_text(hay: Seq<char>, needle: Seq<char>) -> bool {
    exists|i: int| 0 <= i && i + needle.len() <= hay.len() && #[trigger] hay.subrange(i, i + needle.len()) == needle
}

pub fn text_contains(hay: &Vec<char>, needle: &Vec<char>) -> (r: bool)
    ensures
        r == contains_text(hay@, needle@),
{
    if needle.len() > hay.len() {
        return false;
    }
    let mut i: usize = 0;
    while i <= hay.len() - needle.len()
        invariant
            needle.len() <= hay.len(),
            i <= hay.len() - needle.len() + 1,
            forall|j: int| 0 <= j < i ==> #[trigger] hay@.subrange(j, j + needle.len()) != needle@,
        decreases hay.len() - i,
    {
        let mut k: usize = 0;
        while k < needle.len() && hay[i + k] == needle[k]
            invariant
                i + needle.len() <= hay.len(),
                k <= needle.len(),
                forall|j: int| 0 <= j < k ==> hay@[i + j] == needle@[j],
            decreases needle.len() - k,
        {
            k = k + 1;
        }
        if k == needle.len() {
            assert(hay@.subrange(i as int, i + needle.len()) =~= needle@);
            return true;
        }
        assert(hay@.subrange(i as int, i + needle.len())[k as int] != needle@[k as int]);
        i = i + 1;
    }
    proof {
        assert forall|j: int|
            0 <= j && j + needle.len() <= hay.len() implies #[trigger] hay@.subrange(
            j,
            j + needle.len(),
        ) != needle@ by {
            assert(j < i);
        }
    }
    false
}

/// Whether a restore with these patterns takes `e`: every entry when there
/// are none, otherwise those whose original path or trash name contains one.
pub open spec fn restore_selects(e: TrashEntry, patterns: Seq<Seq<char>>) -> bool {
    patterns.len() == 0 || exists|k: int|
        0 <= k < patterns.len() && (contains_text(e.original_path@, #[trigger] patterns[k])
            || contains_text(e.trash_name@, patterns[k]))
}

pub open spec fn strings_view(v: Seq<String>) -> Seq<Seq<char>> {
    v.map_values(|s: String| s@)
}

/// A text contains every piece of it: whatever comes before and after
/// `needle`, the whole contains it (at its start, in its middle or at its
/// end).
pub proof fn lemma_contains_piece(before: Seq<char>, needle: Seq<char>, after: Seq<char>)
    ensures
        contains_text(before + needle + after, needle),
        contains_text(before + needle, needle),
        contains_text(needle + after, needle),
{
    let h = before + needle + after;
    assert(h.subrange(before.len() as int, before.len() + needle.len() as int) =~= needle);
    let h2 = before + needle;
    assert(h2.subrange(before.len() as int, before.len() + needle.len() as int) =~= needle);
    let h3 = needle + after;
    let z: int = 0;
    assert(h3.subrange(z, z + needle.len()) =~= needle);
}

/// A text contains nothing longer than itself.
pub proof fn lemma_contains_fits(hay: Seq<char>, needle: Seq<char>)
    ensures
        contains_text(hay, needle) ==> needle.len() <= hay.len(),
{
}

/// A restore takes every entry whose original path or trash name holds one
/// of the patterns anywhere, its end included.
pub proof fn lemma_restore_finds_pattern(
    e: TrashEntry,
    patterns: Seq<Seq<char>>,
    k: int,
    before: Seq<char>,
    after: Seq<char>,
)
    requires
        0 <= k < patterns.len(),
        e.original_path@ == before + patterns[k] + after || e.trash_name@ == before + patterns[k] + after,
    ensures
        restore_selects(e, patterns),
{
    lemma_contains_piece(before, patterns[k], after);
}

/// A restore with no pattern brings back everything in the trash, and one
/// with the empty pattern too (every path contains it).
pub proof fn lemma_restore_all(entries: Seq<TrashEntry>, patterns: Seq<Seq<char>>)
    requires
        patterns.len() == 0 || patterns.contains(Seq::empty()),
    ensures
        entries.filter(|e: TrashEntry| restore_selects(e, patterns)) == entries,
{
    let pred = |e: TrashEntry| restore_selects(e, patterns);
    assert forall|i: int| 0 <= i < entries.len() implies pred(#[trigger] entries[i]) by {
        if patterns.len() > 0 {
            let k = choose|k: int| 0 <= k < patterns.len() && patterns[k] == Seq::<char>::empty();
            let hay = entries[i].original_path@;
            assert(patterns[k].len() == 0);
            assert(hay.subrange(0int, 0int + patterns[k].len()) =~= patterns[k]);
            assert(contains_text(entries[i].original_path@, patterns[k]));
        }
    }
    lemma_filter_all(entries, pred);
}

proof fn lemma_filter_all<A>(s: Seq<A>, pred: spec_fn(A) -> bool)
    requires
        forall|i: int| 0 <= i < s.len() ==> pred(#[trigger] s[i]),
    ensures
        s.filter(pred) == s,
    decreases s.len(),
{
    if s.len() > 0 {
        let t = s.drop_last();
        assert forall|i: int| 0 <= i < t.len() implies pred(#[trigger] t[i]) by {
            assert(t[i] == s[i]);
        }
        lemma_filter_all(t, pred);
        assert(s =~= t.push(s.last()));
        t.lemma_filter_push(s.last(), pred);
        assert(pred(s[s.len() - 1]));
    } else {
        assert(s.filter(pred) =~= s);
    }
}

/// The entries that a restore with `patterns` brings back, in the order given.
pub fn restore_selection(entries: &Vec<TrashEntry>, patterns: &Vec<String>) -> (r: Vec<TrashEntry>)
    ensures
        r@ == entries@.filter(|e: TrashEntry| restore_selects(e, strings_view(patterns@))),
{
    let ghost pv = strings_view(patterns@);
    let ghost pred = |e: TrashEntry| restore_selects(e, pv);
    let mut pats: Vec<Vec<char>> = Vec::new();
    let mut j: usize = 0;
    while j < patterns.len()
        invariant
            j <= patterns.len(),
            pats@.len() == j,
            forall|k: int| 0 <= k < j ==> #[trigger] pats@[k]@ == patterns@[k]@,
        decreases patterns.len() - j,
    {
        pats.push(chars_of(patterns[j].as_str()));
        j = j + 1;
    }
    let mut out: Vec<TrashEntry> = Vec::new();
    let mut i: usize = 0;
    while i < entries.len()
        invariant
            i <= entries.len(),
            pats@.len() == patterns@.len(),
            forall|k: int| 0 <= k < pats@.len() ==> #[trigger] pats@[k]@ == patterns@[k]@,
            pv == strings_view(patterns@),
            pred == (|e: TrashEntry| restore_selects(e, pv)),
            out@ == entries@.take(i as int).filter(pred),
        decreases entries.len() - i,
    {
        let e = &entries[i];
        let orig = chars_of(e.original_path.as_str());
        let name = chars_of(e.trash_name.as_str());
        let mut keep = pats.len() == 0;
        let mut k: usize = 0;
        while k < pats.len() && !keep
            invariant
                k <= pats@.len(),
                pats@.len() == patterns@.len(),
                forall|q: int| 0 <= q < pats@.len() ==> #[trigger] pats@[q]@ == patterns@[q]@,
                pv == strings_view(patterns@),
                orig@ == e.original_path@,
                name@ == e.trash_name@,
                keep == (pv.len() == 0 || exists|q: int|
                    0 <= q < k && (contains_text(e.original_path@, #[trigger] pv[q])
                        || contains_text(e.trash_name@, pv[q]))),
            decreases pats.len() - k,
        {
            let hit = text_contains(&orig, &pats[k]) || text_contains(&name, &pats[k]);
            proof {
                assert(pv[k as int] == patterns@[k as int]@);
            }
            if hit {
                keep = true;
            }
            k = k + 1;
        }
        proof {
            assert(pv.len() == patterns@.len());
            if !keep {
                assert forall|q: int| 0 <= q < pv.len() implies !(contains_text(
                    e.original_path@,
                    #[trigger] pv[q],
                ) || contains_text(e.trash_name@, pv[q])) by {
                    assert(q < k);
                }
            }
            assert(keep == pred(entries@[i as int]));
            assert(entries@.take(i + 1) =~= entries@.take(i as int).push(entries@[i as int]));
            entries@.take(i as int).lemma_filter_push(entries@[i as int], pred);
        }
        if keep {
            out.push(e.duplicate());
        }
        i = i + 1;
    }
    assert(entries@.take(entries.len() as int) =~= entries@);
    out
}


// ── automatic clean-up ──────────────────────────────────────────
/// The age limit of the settings, when it reads as a duration.
pub open spec fn age_limit(config: RamConfig) -> Option<nat> {
    match config.max_age {
        Some(s) => match duration_of(s@) {
            Ok(d) => Some(d),
            Err(_) => None,
        },
        None => None,
    }
}

/// The size limit of the settings, when it reads as a size.
pub open spec fn size_limit(config: RamConfig) -> Option<nat> {
    match config.max_size {
        Some(s) => match size_of_text(s@) {
            Ok(n) => Some(n),
            Err(_) => None,
        },
        None => None,
    }
}

pub open spec fn is_older(e: TrashEntry, now: int, d: nat) -> bool {
    (e.trashed_at as int) < cutoff(now, d)
}

/// The entries past the age limit, in order.
pub open spec fn aged_out(config: RamConfig, s: Seq<TrashEntry>, now: int) -> Seq<TrashEntry> {
    match age_limit(config) {
        Some(d) => s.filter(|e: TrashEntry| is_older(e, now, d)),
        None => Seq::empty(),
    }
}

/// The entries within the age limit, in order.
pub open spec fn within_age(config: RamConfig, s: Seq<TrashEntry>, now: int) -> Seq<TrashEntry> {
    match age_limit(config) {
        Some(d) => s.filter(|e: TrashEntry| !is_older(e, now, d)),
        None => s,
    }
}

/// How many of the oldest-first entries `sorted` go before the running total,
/// which each removal lowers by the entry's size (not below zero), is no
/// longer above `max`.
pub open spec fn prune_count(sorted: Seq<TrashEntry>, running: nat, max: nat) -> nat
    decreases sorted.len(),
{
    if sorted.len() > 0 && running > max {
        1 + prune_count(
            sorted.drop_first(),
            if running >= sorted[0].size {
                (running - sorted[0].size) as nat
            } else {
                0
            },
            max,
        )
    } else {
        0
    }
}

/// The oldest entries within the age limit that go to bring the trash under
/// the size limit.
pub open spec fn over_size(config: RamConfig, s: Seq<TrashEntry>, now: int) -> Seq<TrashEntry> {
    let kept = within_age(config, s, now);
    match size_limit(config) {
        Some(m) => {
            let sorted = sorted_by_time(kept, false);
            sorted.take(prune_count(sorted, total_size(kept), m) as int)
        },
        None => Seq::empty(),
    }
}

/// Everything the automatic clean-up removes: first the entries past the
/// age limit, then the oldest of the others while the trash is over the size
/// limit.
pub open spec fn auto_removal(config: RamConfig, s: Seq<TrashEntry>, now: int) -> Seq<TrashEntry> {
    aged_out(config, s, now) + over_size(config, s, now)
}

proof fn lemma_prune_count_bound(sorted: Seq<TrashEntry>, running: nat, max: nat)
    ensures
        prune_count(sorted, running, max) <= sorted.len(),
    decreases sorted.len(),
{
    if sorted.len() > 0 && running > max {
        lemma_prune_count_bound(
            sorted.drop_first(),
            if running >= sorted[0].size {
                (running - sorted[0].size) as nat
            } else {
                0
            },
            max,
        );
    }
}

proof fn lemma_total_size_first(s: Seq<TrashEntry>)
    requires
        s.len() > 0,
    ensures
        total_size(s) == s[0].size + total_size(s.drop_first()),
{
    let one = seq![s[0]];
    lemma_total_size_concat(one, s.drop_first());
    assert(one + s.drop_first() =~= s);
    assert(one.drop_last() =~= Seq::<TrashEntry>::empty());
    assert(total_size(one.drop_last()) == 0);
    assert(total_size(one) == s[0].size as nat);
}

proof fn lemma_prune_fits(sorted: Seq<TrashEntry>, max: nat)
    ensures
        total_size(sorted.skip(prune_count(sorted, total_size(sorted), max) as int)) <= max,
    decreases sorted.len(),
{
    let running = total_size(sorted);
    if sorted.len() > 0 && running > max {
        lemma_total_size_first(sorted);
        let rest = sorted.drop_first();
        lemma_prune_fits(rest, max);
        let c = prune_count(rest, total_size(rest), max);
        lemma_prune_count_bound(rest, total_size(rest), max);
        assert(sorted.skip(1 + c as int) =~= rest.skip(c as int));
    } else if sorted.len() > 0 {
        assert(sorted.skip(0) =~= sorted);
    } else {
        assert(sorted.skip(0) =~= sorted);
    }
}

/// The automatic clean-up brings the trash under its size limit: of the
/// entries within the age limit, those it leaves come to no more than the
/// limit.
pub proof fn lemma_auto_clean_fits(config: RamConfig, s: Seq<TrashEntry>, now: int)
    requires
        size_limit(config) is Some,
    ensures
        total_size(within_age(config, s, now)) - total_size(over_size(config, s, now)) <= size_limit(
            config,
        )->0,
{
    let m = size_limit(config)->0;
    let kept = within_age(config, s, now);
    let sorted = sorted_by_time(kept, false);
    lemma_sorted_by_time(kept, false);
    let c = prune_count(sorted, total_size(kept), m);
    lemma_prune_count_bound(sorted, total_size(kept), m);
    lemma_prune_fits(sorted, m);
    lemma_total_size_concat(sorted.take(c as int), sorted.skip(c as int));
    assert(sorted.take(c as int) + sorted.skip(c as int) =~= sorted);
}

proof fn lemma_total_size_split(s: Seq<TrashEntry>, pred: spec_fn(TrashEntry) -> bool)
    ensures
        total_size(s.filter(pred)) + total_size(s.filter(|e: TrashEntry| !pred(e))) == total_size(s),
    decreases s.len(),
{
    let neg = |e: TrashEntry| !pred(e);
    if s.len() == 0 {
        assert(s.filter(pred) =~= Seq::<TrashEntry>::empty());
        assert(s.filter(neg) =~= Seq::<TrashEntry>::empty());
    } else {
        let t = s.drop_last();
        lemma_total_size_split(t, pred);
        assert(s =~= t.push(s.last()));
        t.lemma_filter_push(s.last(), pred);
        t.lemma_filter_push(s.last(), neg);
        if pred(s.last()) {
            assert(s.filter(pred).drop_last() =~= t.filter(pred));
        } else {
            assert(s.filter(neg).drop_last() =~= t.filter(neg));
        }
    }
}

/// What the automatic clean-up looks at and removes is part of the trash:
/// neither totals more than the whole.
proof fn lemma_auto_removal_total(config: RamConfig, s: Seq<TrashEntry>, now: int)
    ensures
        total_size(within_age(config, s, now)) <= total_size(s),
        total_size(auto_removal(config, s, now)) <= total_size(s),
{
    let kept = within_age(config, s, now);
    match age_limit(config) {
        Some(d) => {
            let older = |e: TrashEntry| is_older(e, now, d);
            lemma_total_size_split(s, older);
            assert((|e: TrashEntry| !older(e)) =~= (|e: TrashEntry| !is_older(e, now, d)));
            assert(s.filter(|e: TrashEntry| !older(e)) == kept);
            assert(aged_out(config, s, now) == s.filter(older));
        },
        None => {
            assert(aged_out(config, s, now) =~= Seq::<TrashEntry>::empty());
        },
    }
    lemma_total_size_concat(aged_out(config, s, now), over_size(config, s, now));
    match size_limit(config) {
        Some(m) => {
            let sorted = sorted_by_time(kept, false);
            lemma_sorted_by_time(kept, false);
            let c = prune_count(sorted, total_size(kept), m);
            lemma_prune_count_bound(sorted, total_size(kept), m);
            lemma_total_size_concat(sorted.take(c as int), sorted.skip(c as int));
            assert(sorted.take(c as int) + sorted.skip(c as int) =~= sorted);
        },
        None => {
            assert(over_size(config, s, now) =~= Seq::<TrashEntry>::empty());
        },
    }
}

/// The automatic clean-up removes only entries of the trash: each past the
/// age limit, or, when there is a size limit, within it; with no size limit
/// only those past the age limit go.
pub proof fn lemma_auto_clean_removes_only(config: RamConfig, s: Seq<TrashEntry>, now: int, e: TrashEntry)
    requires
        auto_removal(config, s, now).contains(e),
    ensures
        s.contains(e),
        size_limit(config) is None ==> (age_limit(config) matches Some(d) && is_older(e, now, d)),
{
    broadcast use vstd::seq_lib::group_to_multiset_ensures, vstd::seq_lib::group_filter_ensures;
    let a = aged_out(config, s, now);
    let o = over_size(config, s, now);
    let k = choose|k: int| 0 <= k < a.len() + o.len() && auto_removal(config, s, now)[k] == e;
    if k < a.len() {
        assert(a[k] == e);
        assert(a.contains(e));
        let d = age_limit(config)->0;
        let pred = |x: TrashEntry| is_older(x, now, d);
        s.lemma_filter_contains_rev(pred, e);
        let j = choose|j: int| 0 <= j < s.filter(pred).len() && s.filter(pred)[j] == e;
        assert(pred(s.filter(pred)[j]));
    } else {
        assert(o[k - a.len()] == e);
        let kept = within_age(config, s, now);
        let m = size_limit(config)->0;
        let sorted = sorted_by_time(kept, false);
        lemma_sorted_by_time(kept, false);
        let c = prune_count(sorted, total_size(kept), m);
        lemma_prune_count_bound(sorted, total_size(kept), m);
        assert(sorted[k - a.len()] == e);
        assert(sorted.contains(e));
        assert(sorted.to_multiset().count(e) > 0);
        assert(kept.contains(e));
        match age_limit(config) {
            Some(d) => {
                let pred = |x: TrashEntry| !is_older(x, now, d);
                s.lemma_filter_contains_rev(pred, e);
            },
            None => {},
        }
    }
}

/// The age limit holds whatever the size limit is: when the settings' age
/// reads as a duration `d`, the automatic clean-up removes every entry
/// trashed before `now - d`.
pub proof fn lemma_auto_clean_ages_out(config: RamConfig, s: Seq<TrashEntry>, now: int, d: nat, i: int)
    requires
        config.max_age matches Some(t) && duration_of(t@) == Ok::<nat, DurationError>(d),
        0 <= i < s.len(),
        (s[i].trashed_at as int) < cutoff(now, d),
    ensures
        age_limit(config) == Some(d),
        auto_removal(config, s, now).contains(s[i]),
{
    let pred = |e: TrashEntry| is_older(e, now, d);
    s.lemma_filter_contains(pred, i);
    let a = aged_out(config, s, now);
    let k = choose|k: int| 0 <= k < a.len() && a[k] == s[i];
    let all = auto_removal(config, s, now);
    assert(all[k] == a[k]);
}

/// The automatic clean-up that runs after each removal: `None` when the
/// settings set no limit or nothing is to go, otherwise the entries to
/// remove and their total size.
pub fn auto_clean(config: &RamConfig, entries: Vec<TrashEntry>, now: i128) -> (r: Option<(Vec<TrashEntry>, u64)>)
    requires
        -9_223_372_036_854_775_808_000_000_000 <= now <= 9_223_372_036_854_775_807_999_999_999,
        total_size(entries@) <= 0xFFFF_FFFF_FFFF_FFFF,
    ensures
        match r {
            None => (config.max_age is None && config.max_size is None) || auto_removal(
                *config,
                entries@,
                now as int,
            ).len() == 0,
            Some((removed, freed)) => {
                &&& !(config.max_age is None && config.max_size is None)
                &&& removed@ == auto_removal(*config, entries@, now as int)
                &&& removed@.len() > 0
                &&& freed == total_size(removed@)
            },
        },
{
    proof {
        lemma_auto_removal_total(*config, entries@, now as int);
    }
    if config.max_age.is_none() && config.max_size.is_none() {
        return None;
    }
    // past the age limit, and the rest
    let age: Option<u128> = match &config.max_age {
        Some(s) => match parse_duration(s.as_str()) {
            Ok(d) => Some(d),
            Err(_) => None,
        },
        None => None,
    };
    assert(match age {
        Some(d) => age_limit(*config) == Some(d as nat),
        None => age_limit(*config) is None,
    });
    let mut removed: Vec<TrashEntry> = Vec::new();
    let mut kept: Vec<TrashEntry> = Vec::new();
    match age {
        Some(d) => {
            let cut = cutoff_time(now, d);
            let ghost older = |e: TrashEntry| is_older(e, now as int, d as nat);
            let ghost younger = |e: TrashEntry| !is_older(e, now as int, d as nat);
            let mut i: usize = 0;
            while i < entries.len()
                invariant
                    i <= entries.len(),
                    cut == cutoff(now as int, d as nat),
                    older == (|e: TrashEntry| is_older(e, now as int, d as nat)),
                    younger == (|e: TrashEntry| !is_older(e, now as int, d as nat)),
                    removed@ == entries@.take(i as int).filter(older),
                    kept@ == entries@.take(i as int).filter(younger),
                decreases entries.len() - i,
            {
                let e = &entries[i];
                proof {
                    assert(entries@.take(i + 1) =~= entries@.take(i as int).push(entries@[i as int]));
                    entries@.take(i as int).lemma_filter_push(entries@[i as int], older);
                    entries@.take(i as int).lemma_filter_push(entries@[i as int], younger);
                }
                if (e.trashed_at as i128) < cut {
                    removed.push(e.duplicate());
                } else {
                    kept.push(e.duplicate());
                }
                i = i + 1;
            }
            assert(entries@.take(entries.len() as int) =~= entries@);
        },
        None => {
            kept = entries;
        },
    }
    let ghost aged = removed@;
    assert(aged == aged_out(*config, entries@, now as int));
    assert(kept@ == within_age(*config, entries@, now as int));
    // over the size limit: the oldest go first
    let limit: Option<u64> = match &config.max_size {
        Some(s) => match parse_size(s.as_str()) {
            Ok(m) => Some(m),
            Err(_) => None,
        },
        None => None,
    };
    assert(match limit {
        Some(m) => size_limit(*config) == Some(m as nat),
        None => size_limit(*config) is None,
    });
    match limit {
        Some(max) => {
            let total = sum_sizes(&kept);
            let sorted = sort_by_time(kept, false);
            let ghost whole = prune_count(sorted@, total as nat, max as nat);
            let mut running = total;
            let mut k: usize = 0;
            assert(sorted@.skip(0) =~= sorted@);
            assert(sorted@.take(0) =~= Seq::<TrashEntry>::empty());
            assert(aged + Seq::<TrashEntry>::empty() =~= aged);
            while k < sorted.len() && running > max
                invariant
                    k <= sorted.len(),
                    whole == k + prune_count(sorted@.skip(k as int), running as nat, max as nat),
                    removed@ == aged + sorted@.take(k as int),
                decreases sorted.len() - k,
            {
                let e = &sorted[k];
                proof {
                    assert(sorted@.skip(k as int).drop_first() =~= sorted@.skip(k + 1));
                    assert(sorted@.skip(k as int)[0] == sorted@[k as int]);
                    assert(sorted@.take(k + 1) =~= sorted@.take(k as int).push(sorted@[k as int]));
                }
                running = if running >= e.size {
                    running - e.size
                } else {
                    0
                };
                removed.push(e.duplicate());
                k = k + 1;
            }
            proof {
                assert(prune_count(sorted@.skip(k as int), running as nat, max as nat) == 0);
            }
        },
        None => {
            assert(removed@ =~= aged + Seq::<TrashEntry>::empty());
        },
    }
    assert(removed@ == auto_removal(*config, entries@, now as int));
    if removed.len() == 0 {
        return None;
    }
    let freed = sum_sizes(&removed);
    Some((removed, freed))
}

// ── time stamps ─────────────────────────────────────────────────
/// `n` in decimal, padded with zeros to at least `width` digits, as `{:0w}`.
pub open spec fn zero_padded(n: nat, width: nat) -> Seq<char> {
    let d = decimal_text(n);
    if d.len() >= width {
        d
    } else {
        Seq::new((width - d.len()) as nat, |i: int| '0') + d
    }
}

#[verifier::rlimit(40)]
pub fn push_padded(out: &mut Vec<char>, n: u128, width: usize)
    ensures
        final(out)@ == old(out)@ + zero_padded(n as nat, width as nat),
{
    let mut digits: Vec<char> = Vec::new();
    push_decimal(&mut digits, n);
    assert(digits@ =~= decimal_text(n as nat));
    let ghost start = out@;
    if digits.len() < width {
        let pad = width - digits.len();
        let mut i: usize = 0;
        while i < pad
            invariant
                i <= pad,
                out@ == start + Seq::new(i as nat, |j: int| '0'),
            decreases pad - i,
        {
            out.push('0');
            assert(Seq::new((i + 1) as nat, |j: int| '0') =~= Seq::new(i as nat, |j: int| '0').push('0'));
            i = i + 1;
        }
    }
    let ghost mid = out@;
    let mut i: usize = 0;
    while i < digits.len()
        invariant
            i <= digits.len(),
            out@ == mid + digits@.take(i as int),
        decreases digits.len() - i,
    {
        out.push(digits[i]);
        assert(digits@.take(i + 1) =~= digits@.take(i as int).push(digits@[i as int]));
        i = i + 1;
    }
    assert(digits@.take(digits.len() as int) =~= digits@);
    assert(out@ =~= start + zero_padded(n as nat, width as nat));
}

/// How the list of the trash shows when an entry was trashed, given `ts` and
/// the present `now` in whole seconds since the epoch: the time of day
/// within a day, days and time within a week, otherwise an approximate date
/// (years of 365.25 days, months of a twelfth of that).
pub open spec fn timestamp_text(ts: nat, now: nat) -> Seq<char> {
    let hours = (ts % 86400) / 3600;
    let mins = (ts % 3600) / 60;
    let secs = ts % 60;
    let age = if now >= ts {
        (now - ts) as nat
    } else {
        0
    };
    let days = age / 86400;
    if days < 1 {
        zero_padded(hours, 2) + seq![':'] + zero_padded(mins, 2) + seq![':'] + zero_padded(secs, 2)
    } else if days < 7 {
        decimal_text(days) + seq!['d', ' '] + zero_padded(hours, 2) + seq![':'] + zero_padded(mins, 2)
    } else {
        let y = ts / 31557600 + 1970;
        let rem = ts % 31557600;
        let mo = rem / 2629800 + 1;
        let d = (rem % 2629800) / 86400 + 1;
        zero_padded(y, 4) + seq!['-'] + zero_padded(mo, 2) + seq!['-'] + zero_padded(d, 2)
    }
}

pub fn format_timestamp(ts: u64, now: u64) -> (r: String)
    ensures
        r@ == timestamp_text(ts as nat, now as nat),
{
    let hours = (ts % 86400) / 3600;
    let mins = (ts % 3600) / 60;
    let secs = ts % 60;
    let age = if now >= ts {
        now - ts
    } else {
        0
    };
    let days = age / 86400;
    let mut out: Vec<char> = Vec::new();
    if days < 1 {
        push_padded(&mut out, hours as u128, 2);
        out.push(':');
        push_padded(&mut out, mins as u128, 2);
        out.push(':');
        push_padded(&mut out, secs as u128, 2);
        assert(out@ =~= timestamp_text(ts as nat, now as nat));
    } else if days < 7 {
        push_decimal(&mut out, days as u128);
        out.push('d');
        out.push(' ');
        push_padded(&mut out, hours as u128, 2);
        out.push(':');
        push_padded(&mut out, mins as u128, 2);
        assert(out@ =~= timestamp_text(ts as nat, now as nat));
    } else {
        let y = ts / 31557600 + 1970;
        let rem = ts % 31557600;
        let mo = rem / 2629800 + 1;
        let d = (rem % 2629800) / 86400 + 1;
        push_padded(&mut out, y as u128, 4);
        out.push('-');
        push_padded(&mut out, mo as u128, 2);
        out.push('-');
        push_padded(&mut out, d as u128, 2);
        assert(out@ =~= timestamp_text(ts as nat, now as nat));
    }
    string_of(&out)
}

} // verus!
