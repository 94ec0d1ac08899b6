//! Unix paths as their components, and the choice of what a removal targets.
use crate::decimal::{find_char, first_index_of, span};
use crate::nav::{joined_with, split_on, starts_with};
use crate::trash::{cutoff, cutoff_time, joined, path_join};
use crate::pattern::{compile_glob, glob_error, glob_is_match, glob_matches};
use crate::text::{chars_of, push_str, string_of, string_of_range};
use vstd::prelude::*;

verus! {

/// A component of a path, as `Path::components` gives it on Unix.
pub enum PathPart {
    Root,
    Current,
    Parent,
    Normal(Seq<char>),
}

/// The components of a path, computed.
#[derive(Debug, Clone)]
pub enum Part {
    Root,
    Current,
    Parent,
    Normal(Vec<char>),
}

impl View for Part {
    type V = PathPart;

    open spec fn view(&self) -> PathPart {
        match self {
            Part::Root => PathPart::Root,
            Part::Current => PathPart::Current,
            Part::Parent => PathPart::Parent,
            Part::Normal(v) => PathPart::Normal(v@),
        }
    }
}

pub open spec fn parts_view(v: Seq<Part>) -> Seq<PathPart> {
    v.map_values(|p: Part| p@)
}

/// The components of the pieces between the `/`: empty pieces and `.` give
/// none, `..` the parent.
pub open spec fn piece_parts(pieces: Seq<Seq<char>>) -> Seq<PathPart>
    decreases pieces.len(),
{
    if pieces.len() == 0 {
        Seq::empty()
    } else {
        let rest = piece_parts(pieces.drop_first());
        let p = pieces[0];
        if p.len() == 0 || p == seq!['.'] {
            rest
        } else if p == seq!['.', '.'] {
            seq![PathPart::Parent] + rest
        } else {
            seq![PathPart::Normal(p)] + rest
        }
    }
}

/// The components of a path: the root when it starts with `/`, the current
/// directory when it starts with a `.` piece, then the other pieces.
pub open spec fn components(p: Seq<char>) -> Seq<PathPart> {
    let pieces = split_on(p, '/');
    (if p.len() > 0 && p[0] == '/' {
        seq![PathPart::Root]
    } else if pieces[0] == seq!['.'] {
        seq![PathPart::Current]
    } else {
        Seq::empty()
    }) + piece_parts(pieces)
}

proof fn lemma_split_step(s: Seq<char>, c: char)
    ensures
        split_on(s, c).len() >= 1,
        first_index_of(s, c) is None ==> split_on(s, c) == seq![s],
        first_index_of(s, c) matches Some(i) ==> i < s.len() && split_on(s, c) == seq![s.take(i as int)]
            + split_on(s.skip(i as int + 1), c),
    decreases s.len(),
{
    lemma_first_index_bound(s, c);
}

proof fn lemma_first_index_bound(s: Seq<char>, c: char)
    ensures
        first_index_of(s, c) matches Some(i) ==> i < s.len() && s[i as int] == c,
    decreases s.len(),
{
    if s.len() > 0 && s[0] != c {
        lemma_first_index_bound(s.drop_first(), c);
    }
}

fn is_text(v: &Vec<char>, lo: usize, hi: usize, lit: &[char]) -> (r: bool)
    requires
        lo <= hi <= v.len(),
    ensures
        r == (span(v@, lo, hi) == lit@),
{
    crate::text::range_is(v, lo, hi, lit)
}

/// The components of a path.
pub fn path_parts(s: &str) -> (r: Vec<Part>)
    ensures
        parts_view(r@) == components(s@),
{
    let cs = chars_of(s);
    let n = cs.len();
    let ghost pieces = split_on(cs@, '/');
    let mut out: Vec<Part> = Vec::new();
    let first = find_char(&cs, 0, n, '/');
    proof {
        assert(span(cs@, 0, n) =~= cs@);
        lemma_split_step(cs@, '/');
        if first < n {
            assert(cs@.take(first as int) =~= span(cs@, 0, first));
        }
        assert(pieces[0] == span(cs@, 0, first));
        assert(['.']@ =~= seq!['.']);
        assert(['.', '.']@ =~= seq!['.', '.']);
    }
    if n > 0 && cs[0] == '/' {
        out.push(Part::Root);
    } else if is_text(&cs, 0, first, &['.']) {
        out.push(Part::Current);
    }
    let ghost prefix = parts_view(out@);
    let mut lo: usize = 0;
    proof {
        assert(cs@.skip(0) =~= cs@);
        assert(parts_view(out@) =~= prefix);
        assert(prefix + piece_parts(pieces) == components(s@));
    }
    loop
        invariant
            lo <= n,
            n == cs.len(),
            cs@ == s@,
            pieces == split_on(cs@, '/'),
            parts_view(out@) + piece_parts(split_on(cs@.skip(lo as int), '/')) == components(s@),
        decreases n - lo,
    {
        let ghost rest = cs@.skip(lo as int);
        let next = find_char(&cs, lo, n, '/');
        proof {
            assert(span(cs@, lo, n) =~= rest);
            lemma_split_step(rest, '/');
            if next < n {
                assert(rest.take((next - lo) as int) =~= span(cs@, lo, next));
                assert(rest.skip((next - lo) as int + 1) =~= cs@.skip(next + 1));
            } else {
                assert(rest =~= span(cs@, lo, next));
            }
            assert(split_on(rest, '/')[0] == span(cs@, lo, next));
            assert(['.']@ =~= seq!['.']);
            assert(['.', '.']@ =~= seq!['.', '.']);
        }
        let ghost before = parts_view(out@);
        if next == lo || is_text(&cs, lo, next, &['.']) {
        } else if is_text(&cs, lo, next, &['.', '.']) {
            out.push(Part::Parent);
        } else {
            let mut piece: Vec<char> = Vec::new();
            let mut k = lo;
            while k < next
                invariant
                    lo <= k <= next <= cs.len(),
                    piece@ == span(cs@, lo, k),
                decreases next - k,
            {
                piece.push(cs[k]);
                assert(span(cs@, lo, (k + 1) as usize) =~= span(cs@, lo, k).push(cs@[k as int]));
                k = k + 1;
            }
            out.push(Part::Normal(piece));
        }
        proof {
            let ps = split_on(rest, '/');
            let tail = if next < n {
                split_on(cs@.skip(next + 1), '/')
            } else {
                Seq::<Seq<char>>::empty()
            };
            assert(ps =~= seq![span(cs@, lo, next)] + tail);
            assert(ps.drop_first() =~= tail);
            assert(parts_view(out@) + piece_parts(tail) =~= before + piece_parts(ps));
        }
        if next == n {
            proof {
                assert(piece_parts(Seq::<Seq<char>>::empty()) =~= Seq::<PathPart>::empty());
                assert(parts_view(out@) + Seq::<PathPart>::empty() =~= parts_view(out@));
            }
            return out;
        }
        lo = next + 1;
    }
}

/// The last component of a path, when it is a name.
pub open spec fn file_name_of(p: Seq<char>) -> Option<Seq<char>> {
    let c = components(p);
    if c.len() > 0 && c.last() is Normal {
        Some(c.last()->Normal_0)
    } else {
        None
    }
}

/// The file name of a path, as `Path::file_name` gives it.
pub fn file_name(s: &str) -> (r: Option<String>)
    ensures
        match r {
            Some(n) => file_name_of(s@) == Some(n@),
            None => file_name_of(s@) is None,
        },
{
    let parts = path_parts(s);
    let n = parts.len();
    if n == 0 {
        return None;
    }
    proof {
        assert(parts_view(parts@).last() == parts@[n - 1]@);
    }
    match &parts[n - 1] {
        Part::Normal(v) => Some(string_of(v)),
        _ => None,
    }
}

/// Whether a path is the root directory, `/` (written in any form with the
/// same components), or resolves to it (`canonical`, when it could be
/// resolved).
pub open spec fn is_root_of(path: Seq<char>, canonical: Option<Seq<char>>) -> bool {
    components(path) == seq![PathPart::Root] || match canonical {
        Some(c) => components(c) == seq![PathPart::Root],
        None => false,
    }
}

fn only_root(s: &str) -> (r: bool)
    ensures
        r == (components(s@) == seq![PathPart::Root]),
{
    let parts = path_parts(s);
    let r = parts.len() == 1 && match &parts[0] {
        Part::Root => true,
        _ => false,
    };
    proof {
        if parts.len() == 1 {
            assert(parts_view(parts@)[0] == parts@[0]@);
            if r {
                assert(parts_view(parts@) =~= seq![PathPart::Root]);
            }
        }
        if !r && components(s@) == seq![PathPart::Root] {
            assert(parts_view(parts@)[0] == parts@[0]@);
        }
    }
    r
}

/// Whether removing `path` would remove the root directory; `canonical` is
/// the path resolved, when that succeeded.
pub fn is_root(path: &str, canonical: Option<&str>) -> (r: bool)
    ensures
        r == is_root_of(path@, match canonical {
            Some(c) => Some(c@),
            None => None,
        }),
{
    if only_root(path) {
        return true;
    }
    match canonical {
        Some(c) => only_root(c),
        None => false,
    }
}

// ── .env files ──────────────────────────────────────────────────
/// `.env`, or a name that starts with `.env.`.
pub open spec fn is_env_name(name: Seq<char>) -> bool {
    name == seq!['.', 'e', 'n', 'v'] || starts_with(name, seq!['.', 'e', 'n', 'v', '.'])
}

/// Whether a path names an environment file (its last component is such a
/// name); that it is a file is for the caller to say.
pub open spec fn env_path(p: Seq<char>) -> bool {
    file_name_of(p) matches Some(n) && is_env_name(n)
}

pub fn is_env_path(s: &str) -> (r: bool)
    ensures
        r == env_path(s@),
{
    match file_name(s) {
        None => false,
        Some(n) => {
            let c = chars_of(n.as_str());
            let whole = crate::text::range_is(&c, 0, c.len(), &['.', 'e', 'n', 'v']);
            let head = c.len() >= 5 && crate::text::range_is(&c, 0, 5, &['.', 'e', 'n', 'v', '.']);
            proof {
                assert(span(c@, 0, c.len()) =~= c@);
                assert(['.', 'e', 'n', 'v']@ =~= seq!['.', 'e', 'n', 'v']);
                assert(['.', 'e', 'n', 'v', '.']@ =~= seq!['.', 'e', 'n', 'v', '.']);
                if c.len() >= 5 {
                    assert(span(c@, 0, 5) =~= c@.take(5));
                }
            }
            whole || head
        },
    }
}

/// Whether a path is an environment file: it is a file (`is_file`, as the
/// file system says) named `.env` or `.env.*`.
pub fn is_env_file(path: &str, is_file: bool) -> (r: bool)
    ensures
        r == (is_file && env_path(path@)),
{
    is_file && is_env_path(path)
}

/// A target of a removal as the file system shows it: whether it is a
/// directory or a file and, for a directory, everything below it, depth
/// first, each with whether it is a file.
#[derive(Debug, Clone)]
pub struct Probe {
    pub path: String,
    pub is_dir: bool,
    pub is_file: bool,
    pub below: Vec<(String, bool)>,
}

/// The environment files of a target: those below a directory, in order, or
/// the target itself.
pub open spec fn env_files_of(t: Probe) -> Seq<Seq<char>> {
    if t.is_dir {
        t.below@.filter(|b: (String, bool)| b.1 && env_path(b.0@)).map_values(|b: (String, bool)| b.0@)
    } else if t.is_file && env_path(t.path@) {
        seq![t.path@]
    } else {
        Seq::empty()
    }
}

pub open spec fn env_files_all(ts: Seq<Probe>) -> Seq<Seq<char>>
    decreases ts.len(),
{
    if ts.len() == 0 {
        Seq::empty()
    } else {
        env_files_all(ts.drop_last()) + env_files_of(ts.last())
    }
}

/// The environment files (`.env`, `.env.*`) among the targets and below the
/// target directories, in order.
pub fn detect_env_files(targets: &Vec<Probe>) -> (r: Vec<String>)
    ensures
        crate::trash::strings_view(r@) == env_files_all(targets@),
{
    let mut out: Vec<String> = Vec::new();
    let mut i: usize = 0;
    while i < targets.len()
        invariant
            i <= targets.len(),
            crate::trash::strings_view(out@) == env_files_all(targets@.take(i as int)),
        decreases targets.len() - i,
    {
        let t = &targets[i];
        let ghost before = crate::trash::strings_view(out@);
        if t.is_dir {
            let ghost pred = |b: (String, bool)| b.1 && env_path(b.0@);
            let ghost f = t.below@.filter(pred).map_values(|b: (String, bool)| b.0@);
            let mut j: usize = 0;
            while j < t.below.len()
                invariant
                    j <= t.below.len(),
                    pred == (|b: (String, bool)| b.1 && env_path(b.0@)),
                    crate::trash::strings_view(out@) == before + t.below@.take(j as int).filter(pred).map_values(
                        |b: (String, bool)| b.0@,
                    ),
                decreases t.below.len() - j,
            {
                let (p, is_file) = (&t.below[j].0, t.below[j].1);
                let hit = is_env_file(p.as_str(), is_file);
                proof {
                    assert(t.below@.take(j + 1) =~= t.below@.take(j as int).push(t.below@[j as int]));
                    t.below@.take(j as int).lemma_filter_push(t.below@[j as int], pred);
                    assert(hit == pred(t.below@[j as int]));
                }
                let ghost seen = t.below@.take(j as int).filter(pred).map_values(|b: (String, bool)| b.0@);
                if hit {
                    out.push(p.clone());
                    assert(crate::trash::strings_view(out@) =~= crate::trash::strings_view(
                        out@.drop_last(),
                    ).push(p@));
                    assert(t.below@.take(j as int).filter(pred).push(t.below@[j as int]).map_values(
                        |b: (String, bool)| b.0@,
                    ) =~= seen.push(p@));
                    assert(before + seen.push(p@) =~= (before + seen).push(p@));
                } else {
                    assert(t.below@.take(j + 1).filter(pred) == t.below@.take(j as int).filter(pred));
                }
                j = j + 1;
            }
            assert(t.below@.take(t.below.len() as int) =~= t.below@);
        } else if is_env_file(t.path.as_str(), t.is_file) {
            out.push(t.path.clone());
            assert(crate::trash::strings_view(out@) =~= before + seq![t.path@]);
        } else {
            assert(crate::trash::strings_view(out@) =~= before + Seq::<Seq<char>>::empty());
        }
        proof {
            assert(targets@.take(i + 1).drop_last() =~= targets@.take(i as int));
            assert(targets@.take(i + 1).last() == targets@[i as int]);
        }
        i = i + 1;
    }
    assert(targets@.take(targets.len() as int) =~= targets@);
    out
}

// ── --older-than / --larger-than ────────────────────────────────
/// The targets last modified before the cut-off `older` before `now`
/// (times in nanoseconds since the epoch; `None` when the time could not be
/// read, which leaves the target out), in order.
pub open spec fn aged_targets(entries: Seq<(String, Option<i128>)>, older: nat, now: int) -> Seq<Seq<char>> {
    entries.filter(
        |e: (String, Option<i128>)| e.1 matches Some(t) && (t as int) < cutoff(now, older),
    ).map_values(|e: (String, Option<i128>)| e.0@)
}

pub fn filter_by_age(entries: Vec<(String, Option<i128>)>, older_than: u128, now: i128) -> (r: Vec<String>)
    requires
        -9_223_372_036_854_775_808_000_000_000 <= now <= 9_223_372_036_854_775_807_999_999_999,
    ensures
        crate::trash::strings_view(r@) == aged_targets(entries@, older_than as nat, now as int),
{
    let cut = cutoff_time(now, older_than);
    let ghost pred = |e: (String, Option<i128>)| e.1 matches Some(t) && (t as int) < cutoff(now as int, older_than as nat);
    let mut out: Vec<String> = Vec::new();
    let mut i: usize = 0;
    while i < entries.len()
        invariant
            i <= entries.len(),
            cut == cutoff(now as int, older_than as nat),
            pred == (|e: (String, Option<i128>)| e.1 matches Some(t) && (t as int) < cutoff(now as int, older_than as nat)),
            crate::trash::strings_view(out@) == entries@.take(i as int).filter(pred).map_values(
                |e: (String, Option<i128>)| e.0@,
            ),
        decreases entries.len() - i,
    {
        let hit = match entries[i].1 {
            Some(t) => t < cut,
            None => false,
        };
        proof {
            assert(entries@.take(i + 1) =~= entries@.take(i as int).push(entries@[i as int]));
            entries@.take(i as int).lemma_filter_push(entries@[i as int], pred);
            assert(hit == pred(entries@[i as int]));
        }
        if hit {
            out.push(entries[i].0.clone());
            assert(crate::trash::strings_view(out@) =~= crate::trash::strings_view(out@.drop_last()).push(
                entries@[i as int].0@,
            ));
            assert(entries@.take(i as int).filter(pred).push(entries@[i as int]).map_values(
                |e: (String, Option<i128>)| e.0@,
            ) =~= entries@.take(i as int).filter(pred).map_values(|e: (String, Option<i128>)| e.0@).push(
                entries@[i as int].0@,
            ));
        }
        i = i + 1;
    }
    assert(entries@.take(entries.len() as int) =~= entries@);
    out
}

/// The targets larger than `min_size` bytes (`None`: the size could not be
/// read, which leaves the target out), in order.
pub open spec fn large_targets(entries: Seq<(String, Option<u64>)>, min_size: u64) -> Seq<Seq<char>> {
    entries.filter(|e: (String, Option<u64>)| e.1 matches Some(n) && n > min_size).map_values(
        |e: (String, Option<u64>)| e.0@,
    )
}

pub fn filter_by_min_size(entries: Vec<(String, Option<u64>)>, min_size: u64) -> (r: Vec<String>)
    ensures
        crate::trash::strings_view(r@) == large_targets(entries@, min_size),
{
    let ghost pred = |e: (String, Option<u64>)| e.1 matches Some(n) && n > min_size;
    let mut out: Vec<String> = Vec::new();
    let mut i: usize = 0;
    while i < entries.len()
        invariant
            i <= entries.len(),
            pred == (|e: (String, Option<u64>)| e.1 matches Some(n) && n > min_size),
            crate::trash::strings_view(out@) == entries@.take(i as int).filter(pred).map_values(
                |e: (String, Option<u64>)| e.0@,
            ),
        decreases entries.len() - i,
    {
        let hit = match entries[i].1 {
            Some(n) => n > min_size,
            None => false,
        };
        proof {
            assert(entries@.take(i + 1) =~= entries@.take(i as int).push(entries@[i as int]));
            entries@.take(i as int).lemma_filter_push(entries@[i as int], pred);
            assert(hit == pred(entries@[i as int]));
        }
        if hit {
            out.push(entries[i].0.clone());
            assert(crate::trash::strings_view(out@) =~= crate::trash::strings_view(out@.drop_last()).push(
                entries@[i as int].0@,
            ));
            assert(entries@.take(i as int).filter(pred).push(entries@[i as int]).map_values(
                |e: (String, Option<u64>)| e.0@,
            ) =~= entries@.take(i as int).filter(pred).map_values(|e: (String, Option<u64>)| e.0@).push(
                entries@[i as int].0@,
            ));
        }
        i = i + 1;
    }
    assert(entries@.take(entries.len() as int) =~= entries@);
    out
}

// ── the order of paths ──────────────────────────────────────────
/// How many leading items two sequences share.
pub open spec fn common_len<T>(a: Seq<T>, b: Seq<T>) -> nat
    decreases a.len(),
{
    if a.len() == 0 || b.len() == 0 || a[0] != b[0] {
        0
    } else {
        1 + common_len(a.drop_first(), b.drop_first())
    }
}

/// Text in the order of its characters' code points (that of its UTF-8
/// bytes): a proper prefix comes first.
pub open spec fn text_before(a: Seq<char>, b: Seq<char>) -> bool {
    let k = common_len(a, b);
    (k == a.len() && k < b.len()) || (k < a.len() && k < b.len() && (a[k as int] as int) < (b[k as int] as int))
}

/// The place of each kind of component in the order of components.
pub open spec fn part_rank(p: PathPart) -> int {
    match p {
        PathPart::Root => 1,
        PathPart::Current => 2,
        PathPart::Parent => 3,
        PathPart::Normal(_) => 4,
    }
}

/// The order of `Path` components: by kind, two names by their text.
pub open spec fn part_before(x: PathPart, y: PathPart) -> bool {
    match (x, y) {
        (PathPart::Normal(a), PathPart::Normal(b)) => text_before(a, b),
        _ => part_rank(x) < part_rank(y),
    }
}

/// The order of paths: their components compared one by one, a proper prefix
/// first. (Opaque: most proofs need only that it is a strict total order.)
#[verifier::opaque]
pub open spec fn parts_before(a: Seq<PathPart>, b: Seq<PathPart>) -> bool {
    let k = common_len(a, b);
    (k == a.len() && k < b.len()) || (k < a.len() && k < b.len() && part_before(a[k as int], b[k as int]))
}

proof fn lemma_common_len<T>(a: Seq<T>, b: Seq<T>)
    ensures
        common_len(a, b) <= a.len(),
        common_len(a, b) <= b.len(),
        common_len(a, b) == common_len(b, a),
        forall|j: int| 0 <= j < common_len(a, b) ==> a[j] == b[j],
        common_len(a, b) < a.len() && common_len(a, b) < b.len() ==> a[common_len(a, b) as int] != b[common_len(a, b) as int],
        common_len(a, b) == a.len() && common_len(a, b) == b.len() ==> a == b,
    decreases a.len(),
{
    if a.len() == 0 || b.len() == 0 || a[0] != b[0] {
        if a.len() == 0 && b.len() == 0 {
            assert(a =~= b);
        }
    } else {
        lemma_common_len(a.drop_first(), b.drop_first());
        let k = common_len(a, b);
        assert forall|j: int| 0 <= j < k implies a[j] == b[j] by {
            if j > 0 {
                assert(a[j] == a.drop_first()[j - 1]);
                assert(b[j] == b.drop_first()[j - 1]);
            }
        }
        if k == a.len() && k == b.len() {
            assert(a =~= b);
        }
    }
}

/// The facts that pin `common_len` down by indices.
proof fn lemma_common_len_at<T>(a: Seq<T>, b: Seq<T>, k: nat)
    requires
        k <= a.len(),
        k <= b.len(),
        forall|j: int| 0 <= j < k ==> a[j] == b[j],
        k == a.len() || k == b.len() || a[k as int] != b[k as int],
    ensures
        common_len(a, b) == k,
{
    lemma_common_len(a, b);
    let c = common_len(a, b);
    if c < k {
        assert(a[c as int] == b[c as int]);
    }
    if k < c {
        assert(a[k as int] == b[k as int]);
    }
}

/// The order of text is strict and total.
pub proof fn lemma_text_total(a: Seq<char>, b: Seq<char>)
    ensures
        !text_before(a, a),
        text_before(a, b) ==> !text_before(b, a) && a != b,
        a != b ==> text_before(a, b) || text_before(b, a),
{
    lemma_common_len(a, b);
    lemma_common_len(a, a);
    lemma_common_len_at(a, a, a.len());
}

/// The order of text is transitive.
pub proof fn lemma_text_transitive(a: Seq<char>, b: Seq<char>, c: Seq<char>)
    requires
        text_before(a, b),
        text_before(b, c),
    ensures
        text_before(a, c),
{
    lemma_common_len(a, b);
    lemma_common_len(b, c);
    lemma_common_len(a, c);
    let k1 = common_len(a, b);
    let k2 = common_len(b, c);
    let k = if k1 < k2 { k1 } else { k2 };
    assert forall|j: int| 0 <= j < k implies a[j] == c[j] by {
        assert(a[j] == b[j]);
        assert(b[j] == c[j]);
    }
    if k1 < k2 {
        lemma_common_len_at(a, c, k1);
    } else if k2 < k1 {
        lemma_common_len_at(a, c, k2);
    } else {
        if k1 < a.len() && k1 < c.len() {
            assert(a[k1 as int] != c[k1 as int]);
        }
        lemma_common_len_at(a, c, k1);
    }
}

proof fn lemma_part_total(x: PathPart, y: PathPart)
    ensures
        !part_before(x, x),
        part_before(x, y) ==> !part_before(y, x) && x != y,
        x != y ==> part_before(x, y) || part_before(y, x),
{
    match (x, y) {
        (PathPart::Normal(a), PathPart::Normal(b)) => {
            lemma_text_total(a, b);
        },
        (PathPart::Normal(a), _) => {
            lemma_text_total(a, a);
        },
        (_, PathPart::Normal(b)) => {},
        _ => {},
    }
}

proof fn lemma_part_transitive(x: PathPart, y: PathPart, z: PathPart)
    requires
        part_before(x, y),
        part_before(y, z),
    ensures
        part_before(x, z),
{
    match (x, y, z) {
        (PathPart::Normal(a), PathPart::Normal(b), PathPart::Normal(c)) => {
            lemma_text_transitive(a, b, c);
        },
        _ => {},
    }
}

/// The order of paths is strict and total: of two paths with different
/// components exactly one comes first, and no path comes before itself.
pub proof fn lemma_parts_total(a: Seq<PathPart>, b: Seq<PathPart>)
    ensures
        !parts_before(a, a),
        parts_before(a, b) ==> !parts_before(b, a) && a != b,
        a != b ==> parts_before(a, b) || parts_before(b, a),
{
    reveal(parts_before);
    lemma_common_len(a, b);
    lemma_common_len(a, a);
    lemma_common_len_at(a, a, a.len());
    let k = common_len(a, b);
    if k < a.len() && k < b.len() {
        lemma_part_total(a[k as int], b[k as int]);
    }
}

/// The order of paths is transitive.
pub proof fn lemma_parts_transitive(a: Seq<PathPart>, b: Seq<PathPart>, c: Seq<PathPart>)
    requires
        parts_before(a, b),
        parts_before(b, c),
    ensures
        parts_before(a, c),
{
    reveal(parts_before);
    lemma_common_len(a, b);
    lemma_common_len(b, c);
    lemma_common_len(a, c);
    let k1 = common_len(a, b);
    let k2 = common_len(b, c);
    let k = if k1 < k2 { k1 } else { k2 };
    assert forall|j: int| 0 <= j < k implies a[j] == c[j] by {
        assert(a[j] == b[j]);
        assert(b[j] == c[j]);
    }
    if k1 < k2 {
        if k1 < a.len() {
            assert(b[k1 as int] == c[k1 as int]);
            lemma_part_total(a[k1 as int], c[k1 as int]);
        }
        lemma_common_len_at(a, c, k1);
    } else if k2 < k1 {
        assert(a[k2 as int] == b[k2 as int]);
        lemma_part_total(a[k2 as int], c[k2 as int]);
        lemma_common_len_at(a, c, k2);
    } else {
        if k1 < a.len() && k1 < c.len() {
            lemma_part_transitive(a[k1 as int], b[k1 as int], c[k1 as int]);
            lemma_part_total(a[k1 as int], c[k1 as int]);
        }
        lemma_common_len_at(a, c, k1);
    }
}

/// The outcome of comparing two values.
pub enum Rank {
    Before,
    Same,
    After,
}

/// Compares two texts in the order of their characters.
pub fn text_rank(a: &Vec<char>, b: &Vec<char>) -> (r: Rank)
    ensures
        (r is Before) == text_before(a@, b@),
        (r is Same) == (a@ == b@),
{
    let mut i: usize = 0;
    while i < a.len() && i < b.len() && a[i] == b[i]
        invariant
            i <= a.len(),
            i <= b.len(),
            forall|j: int| 0 <= j < i ==> a@[j] == b@[j],
        decreases a.len() - i,
    {
        i = i + 1;
    }
    proof {
        lemma_common_len_at(a@, b@, i as nat);
        lemma_text_total(a@, b@);
        if i == a.len() && i == b.len() {
            lemma_common_len(a@, b@);
        }
    }
    if i == a.len() && i == b.len() {
        Rank::Same
    } else if i == a.len() {
        Rank::Before
    } else if i == b.len() {
        Rank::After
    } else if a[i] < b[i] {
        Rank::Before
    } else {
        Rank::After
    }
}

fn rank_of(p: &Part) -> (r: u8)
    ensures
        r == part_rank(p@),
{
    match p {
        Part::Root => 1,
        Part::Current => 2,
        Part::Parent => 3,
        Part::Normal(_) => 4,
    }
}

fn part_rank_between(x: &Part, y: &Part) -> (r: Rank)
    ensures
        (r is Before) == part_before(x@, y@),
        (r is Same) == (x@ == y@),
{
    proof {
        lemma_part_total(x@, y@);
    }
    match (x, y) {
        (Part::Normal(a), Part::Normal(b)) => text_rank(a, b),
        _ => {
            let (i, j) = (rank_of(x), rank_of(y));
            if i < j {
                Rank::Before
            } else if i == j {
                Rank::Same
            } else {
                Rank::After
            }
        },
    }
}

fn parts_rank(a: &Vec<Part>, b: &Vec<Part>) -> (r: Rank)
    ensures
        (r is Before) == parts_before(parts_view(a@), parts_view(b@)),
        (r is Same) == (parts_view(a@) == parts_view(b@)),
{
    let ghost (va, vb) = (parts_view(a@), parts_view(b@));
    proof {
        lemma_parts_total(va, vb);
    }
    let mut i: usize = 0;
    loop
        invariant
            i <= a.len(),
            i <= b.len(),
            va == parts_view(a@),
            vb == parts_view(b@),
            forall|j: int| 0 <= j < i ==> va[j] == vb[j],
            parts_before(va, vb) ==> !parts_before(vb, va) && va != vb,
            va != vb ==> parts_before(va, vb) || parts_before(vb, va),
        decreases a.len() - i,
    {
        if i == a.len() || i == b.len() {
            proof {
                reveal(parts_before);
                lemma_common_len_at(va, vb, i as nat);
                if i == a.len() && i == b.len() {
                    lemma_common_len(va, vb);
                }
            }
            if i == a.len() && i == b.len() {
                return Rank::Same;
            } else if i == a.len() {
                return Rank::Before;
            } else {
                return Rank::After;
            }
        }
        let here = part_rank_between(&a[i], &b[i]);
        match here {
            Rank::Same => {},
            other => {
                proof {
                    reveal(parts_before);
                    assert(va[i as int] == a@[i as int]@);
                    assert(vb[i as int] == b@[i as int]@);
                    lemma_common_len_at(va, vb, i as nat);
                }
                return other;
            },
        }
        i = i + 1;
    }
}

/// The components of a path, as the key that paths are sorted and told
/// apart by (kept opaque: the proofs below need only its values).
#[verifier::opaque]
pub open spec fn path_key(p: Seq<char>) -> Seq<PathPart> {
    components(p)
}

/// `r` holds its paths in the order of paths, no two with the same
/// components.
pub open spec fn strictly_sorted(r: Seq<Seq<char>>) -> bool {
    forall|i: int, j: int|
        0 <= i < j < r.len() ==> parts_before(#[trigger] path_key(r[i]), #[trigger] path_key(r[j]))
}

/// `xs[k]` is the first path of `xs` with its components.
pub open spec fn first_of_kind(xs: Seq<Seq<char>>, k: int) -> bool {
    0 <= k < xs.len() && forall|m: int| 0 <= m < k ==> #[trigger] path_key(xs[m]) != path_key(xs[k])
}

/// Each path of `r` is the first of `xs` with its components, among the
/// first `n`.
pub open spec fn kept_firsts(r: Seq<Seq<char>>, xs: Seq<Seq<char>>, n: int) -> bool {
    forall|i: int|
        #![trigger r[i]]
        0 <= i < r.len() ==> exists|k: int| #[trigger] first_of_kind(xs, k) && k < n && r[i] == xs[k]
}

/// Some path of `r` has the components `key`.
pub open spec fn key_in(r: Seq<Seq<char>>, key: Seq<PathPart>) -> bool {
    exists|i: int| 0 <= i < r.len() && path_key(r[i]) == key
}

/// Each of the first `n` paths of `xs` has one in `r` with the same
/// components.
pub open spec fn covers(r: Seq<Seq<char>>, xs: Seq<Seq<char>>, n: int) -> bool {
    forall|k: int| 0 <= k < n ==> #[trigger] key_in(r, path_key(xs[k]))
}

pub open spec fn sorted_unique_upto(r: Seq<Seq<char>>, xs: Seq<Seq<char>>, n: int) -> bool {
    strictly_sorted(r) && kept_firsts(r, xs, n) && covers(r, xs, n)
}

/// `r` is `xs` sorted in the order of paths with those that name the same
/// path as an earlier one removed: what `sort` and `dedup` leave of a list of
/// paths.
pub open spec fn sorted_unique(r: Seq<Seq<char>>, xs: Seq<Seq<char>>) -> bool {
    sorted_unique_upto(r, xs, xs.len() as int)
}

proof fn lemma_skip_step(r: Seq<Seq<char>>, xs: Seq<Seq<char>>, i: int, j: int)
    requires
        0 <= i < xs.len(),
        0 <= j < r.len(),
        sorted_unique_upto(r, xs, i),
        path_key(r[j]) == path_key(xs[i]),
    ensures
        sorted_unique_upto(r, xs, i + 1),
{
    assert(key_in(r, path_key(xs[i])));
}

proof fn lemma_insert_step(r: Seq<Seq<char>>, xs: Seq<Seq<char>>, i: int, j: int)
    requires
        0 <= i < xs.len(),
        0 <= j <= r.len(),
        sorted_unique_upto(r, xs, i),
        forall|t: int| 0 <= t < j ==> parts_before(#[trigger] path_key(r[t]), path_key(xs[i])),
        j < r.len() ==> parts_before(path_key(xs[i]), path_key(r[j])),
    ensures
        sorted_unique_upto(r.insert(j, xs[i]), xs, i + 1),
{
    let x = xs[i];
    let kx = path_key(x);
    let q = r.insert(j, x);
    // everything after the insertion point comes after `x`
    assert forall|t: int| j <= t < r.len() implies parts_before(kx, #[trigger] path_key(r[t])) by {
        if t > j {
            lemma_parts_transitive(kx, path_key(r[j]), path_key(r[t]));
        }
    }
    // no path kept so far has the components of `x`
    assert forall|t: int| 0 <= t < r.len() implies #[trigger] path_key(r[t]) != kx by {
        lemma_parts_total(path_key(r[t]), kx);
    }
    assert forall|u: int, w: int| 0 <= u < w < q.len() implies parts_before(
        #[trigger] path_key(q[u]),
        #[trigger] path_key(q[w]),
    ) by {
        if w < j {
            assert(q[u] == r[u] && q[w] == r[w]);
        } else if w == j {
            assert(q[u] == r[u]);
        } else if u < j {
            assert(q[u] == r[u] && q[w] == r[w - 1]);
            lemma_parts_transitive(path_key(r[u]), kx, path_key(r[w - 1]));
        } else if u == j {
            assert(q[w] == r[w - 1]);
        } else {
            assert(q[u] == r[u - 1] && q[w] == r[w - 1]);
        }
    }
    // `x` is the first of its kind
    assert(first_of_kind(xs, i)) by {
        assert forall|m: int| 0 <= m < i implies #[trigger] path_key(xs[m]) != path_key(xs[i]) by {
            assert(key_in(r, path_key(xs[m])));
        }
    }
    assert forall|t: int| #![trigger q[t]] 0 <= t < q.len() implies exists|k: int|
        #[trigger] first_of_kind(xs, k) && k < i + 1 && q[t] == xs[k] by {
        if t == j {
            assert(q[t] == xs[i]);
        } else {
            let t0 = if t < j { t } else { t - 1 };
            assert(q[t] == r[t0]);
        }
    }
    assert forall|k: int| 0 <= k < i + 1 implies #[trigger] key_in(q, path_key(xs[k])) by {
        if k < i {
            assert(key_in(r, path_key(xs[k])));
            let t = choose|t: int| 0 <= t < r.len() && path_key(r[t]) == path_key(xs[k]);
            if t < j {
                assert(q[t] == r[t]);
            } else {
                assert(q[t + 1] == r[t]);
            }
        } else {
            assert(q[j] == xs[k]);
        }
    }
}

/// Sorts paths in the order of paths and drops each that names the same path
/// as an earlier one (`sort` then `dedup`).
pub fn sort_dedup_paths(xs: &Vec<String>) -> (r: Vec<String>)
    ensures
        sorted_unique(crate::trash::strings_view(r@), crate::trash::strings_view(xs@)),
{
    let ghost v = crate::trash::strings_view(xs@);
    let mut out: Vec<String> = Vec::new();
    let mut keys: Vec<Vec<Part>> = Vec::new();
    let mut i: usize = 0;
    proof {
        assert(crate::trash::strings_view(out@) =~= Seq::<Seq<char>>::empty());
    }
    while i < xs.len()
        invariant
            i <= xs.len(),
            v == crate::trash::strings_view(xs@),
            out.len() == keys.len(),
            forall|t: int| 0 <= t < keys.len() ==> parts_view(#[trigger] keys@[t]@) == path_key(out@[t]@),
            sorted_unique_upto(crate::trash::strings_view(out@), v, i as int),
        decreases xs.len() - i,
    {
        let key = path_parts(xs[i].as_str());
        let ghost sv = crate::trash::strings_view(out@);
        let ghost kx = path_key(v[i as int]);
        assert(xs@[i as int]@ == v[i as int]);
        assert(parts_view(key@) == kx) by {
            reveal(path_key);
        }
        let mut j: usize = 0;
        let mut go = true;
        let mut same = false;
        while go && j < out.len()
            invariant
                j <= out.len(),
                out.len() == keys.len(),
                sv == crate::trash::strings_view(out@),
                parts_view(key@) == kx,
                forall|t: int| 0 <= t < keys.len() ==> parts_view(#[trigger] keys@[t]@) == path_key(out@[t]@),
                forall|t: int| 0 <= t < j ==> parts_before(#[trigger] path_key(sv[t]), kx),
                !go ==> j < out.len() && !parts_before(path_key(sv[j as int]), kx) && same == (
                path_key(sv[j as int]) == kx),
                go ==> !same,
            decreases out.len() - j + (if go { 1int } else { 0int }),
        {
            assert(parts_view(keys@[j as int]@) == path_key(sv[j as int]));
            match parts_rank(&keys[j], &key) {
                Rank::Before => {
                    j = j + 1;
                },
                Rank::Same => {
                    go = false;
                    same = true;
                },
                Rank::After => {
                    go = false;
                },
            }
        }
        if same {
            proof {
                lemma_skip_step(sv, v, i as int, j as int);
            }
        } else {
            proof {
                if j < out.len() {
                    lemma_parts_total(path_key(sv[j as int]), kx);
                }
                lemma_insert_step(sv, v, i as int, j as int);
            }
            let ghost old_keys = keys@;
            out.insert(j, xs[i].clone());
            keys.insert(j, key);
            proof {
                assert(crate::trash::strings_view(out@) =~= sv.insert(j as int, v[i as int]));
                assert forall|t: int| 0 <= t < keys.len() implies parts_view(#[trigger] keys@[t]@)
                    == path_key(out@[t]@) by {
                    if t > j {
                        assert(keys@[t] == old_keys[t - 1]);
                    }
                }
            }
        }
        i = i + 1;
    }
    out
}

// ── parents ─────────────────────────────────────────────────────
/// Where the body of a path starts: after its root `/`, or after a leading
/// `.` piece.
pub open spec fn body_start(p: Seq<char>) -> nat {
    if p.len() > 0 && p[0] == '/' {
        1
    } else if p.len() > 0 && p[0] == '.' && (p.len() == 1 || p[1] == '/') {
        1
    } else {
        0
    }
}

/// Where the last piece of `p` starts: just after its last `/` at or after
/// `f`, or `f`.
pub open spec fn piece_start(p: Seq<char>, f: nat) -> nat
    decreases p.len(),
{
    if p.len() <= f {
        p.len()
    } else if p.last() == '/' {
        p.len()
    } else {
        piece_start(p.drop_last(), f)
    }
}

/// `p` without its trailing empty and `.` pieces after `f`.
pub open spec fn trim_back(p: Seq<char>, f: nat) -> Seq<char>
    decreases p.len(),
{
    if p.len() <= f {
        p
    } else {
        let k = piece_start(p, f);
        let piece = p.subrange(k as int, p.len() as int);
        if piece.len() == 0 || piece == seq!['.'] {
            proof {
                lemma_piece_start(p, f);
            }
            trim_back(p.take(if k > f { k - 1 } else { k as int }), f)
        } else {
            p
        }
    }
}

/// The parent of a path, as `Path::parent` gives it: the path without its
/// last component (and the separators and `.` pieces that end it), `None`
/// for the root alone and for the empty path.
pub open spec fn parent_of(p: Seq<char>) -> Option<Seq<char>> {
    let f = body_start(p);
    let s1 = trim_back(p, f);
    if s1.len() > f {
        let k = piece_start(s1, f);
        Some(trim_back(s1.take(if k > f { k - 1 } else { k as int }), f))
    } else if p.len() > 0 && p[0] == '/' {
        None
    } else if f == 1 {
        Some(Seq::empty())
    } else {
        None
    }
}

pub proof fn lemma_piece_start(p: Seq<char>, f: nat)
    ensures
        p.len() <= f ==> piece_start(p, f) == p.len(),
        p.len() > f ==> f <= piece_start(p, f) <= p.len(),
        p.len() > f && piece_start(p, f) > f ==> p[piece_start(p, f) - 1] == '/',
    decreases p.len(),
{
    if p.len() > f && p.last() != '/' {
        lemma_piece_start(p.drop_last(), f);
    }
}

proof fn lemma_trim_back_len(p: Seq<char>, f: nat)
    ensures
        trim_back(p, f).len() <= p.len(),
        trim_back(p, f) == p.take(trim_back(p, f).len() as int),
    decreases p.len(),
{
    if p.len() > f {
        lemma_piece_start(p, f);
        let k = piece_start(p, f);
        let piece = p.subrange(k as int, p.len() as int);
        if piece.len() == 0 || piece == seq!['.'] {
            let q = p.take(if k > f { k - 1 } else { k as int });
            lemma_trim_back_len(q, f);
            assert(trim_back(p, f) =~= p.take(trim_back(p, f).len() as int));
        } else {
            assert(p.take(p.len() as int) =~= p);
        }
    } else {
        assert(p.take(p.len() as int) =~= p);
    }
}

/// A parent is shorter than its path.
pub proof fn lemma_parent_shorter(p: Seq<char>)
    ensures
        parent_of(p) matches Some(q) ==> q.len() < p.len(),
{
    let f = body_start(p);
    lemma_trim_back_len(p, f);
    let s1 = trim_back(p, f);
    if s1.len() > f {
        lemma_piece_start(s1, f);
        let k = piece_start(s1, f);
        lemma_trim_back_len(s1.take(if k > f { k - 1 } else { k as int }), f);
    }
}

/// The last piece of `v[..hi]` after `f`: where it starts.
fn piece_start_in(v: &Vec<char>, hi: usize, f: usize) -> (r: usize)
    requires
        hi <= v.len(),
    ensures
        r == piece_start(v@.take(hi as int), f as nat),
{
    if hi <= f {
        return hi;
    }
    let mut j = hi;
    while j > f && v[j - 1] != '/'
        invariant
            f <= j <= hi <= v.len(),
            piece_start(v@.take(hi as int), f as nat) == piece_start(v@.take(j as int), f as nat),
        decreases j,
    {
        assert(v@.take(j as int).drop_last() =~= v@.take(j - 1));
        j = j - 1;
    }
    j
}

/// `v[..hi]` trimmed of its trailing empty and `.` pieces after `f`: the end
/// of what is left.
fn trim_back_in(v: &Vec<char>, hi: usize, f: usize) -> (r: usize)
    requires
        hi <= v.len(),
    ensures
        r <= hi,
        v@.take(r as int) == trim_back(v@.take(hi as int), f as nat),
{
    let mut h = hi;
    loop
        invariant
            h <= hi <= v.len(),
            trim_back(v@.take(hi as int), f as nat) == trim_back(v@.take(h as int), f as nat),
        decreases h,
    {
        if h <= f {
            return h;
        }
        let k = piece_start_in(v, h, f);
        proof {
            lemma_piece_start(v@.take(h as int), f as nat);
        }
        let empty = k == h;
        let dot = h - k == 1 && v[k] == '.';
        proof {
            let piece = v@.take(h as int).subrange(k as int, h as int);
            if h - k == 1 {
                assert(piece[0] == v@[k as int]);
                if v@[k as int] == '.' {
                    assert(piece =~= seq!['.']);
                }
            }
            if piece == seq!['.'] {
                assert(piece.len() == 1 && piece[0] == '.');
            }
        }
        if !(empty || dot) {
            return h;
        }
        let next = if k > f { k - 1 } else { k };
        assert(v@.take(h as int).take(next as int) =~= v@.take(next as int));
        h = next;
    }
}

/// The parent of a path (`Path::parent`).
pub fn parent_path(s: &str) -> (r: Option<String>)
    ensures
        match r {
            Some(t) => parent_of(s@) == Some(t@),
            None => parent_of(s@) is None,
        },
{
    let v = chars_of(s);
    let n = v.len();
    let f: usize = if n > 0 && v[0] == '/' {
        1
    } else if n > 0 && v[0] == '.' && (n == 1 || v[1] == '/') {
        1
    } else {
        0
    };
    assert(v@.take(n as int) =~= v@);
    let h1 = trim_back_in(&v, n, f);
    if h1 > f {
        let k = piece_start_in(&v, h1, f);
        proof {
            lemma_piece_start(v@.take(h1 as int), f as nat);
        }
        let cut = if k > f { k - 1 } else { k };
        let h2 = trim_back_in(&v, cut, f);
        assert(v@.take(h1 as int).take(cut as int) =~= v@.take(cut as int));
        assert(v@.subrange(0, h2 as int) =~= v@.take(h2 as int));
        Some(string_of_range(&v, 0, h2))
    } else if n > 0 && v[0] == '/' {
        None
    } else if f == 1 {
        Some(String::new())
    } else {
        None
    }
}

/// The directories from `d` up to the last ancestor, each followed by its
/// parent.
pub open spec fn dir_chain(d: Seq<char>) -> Seq<Seq<char>>
    decreases d.len(),
{
    seq![d] + match parent_of(d) {
        Some(q) => {
            proof {
                lemma_parent_shorter(d);
            }
            dir_chain(q)
        },
        None => Seq::empty(),
    }
}

/// Where a `.gitignore` for `start` is looked for, nearest first: in the
/// directory `start` (or, for a file, the directory that holds it) and in
/// each directory above it.
pub open spec fn gitignore_places(start: Seq<char>, start_is_dir: bool) -> Seq<Seq<char>> {
    let first = if start_is_dir { Some(start) } else { parent_of(start) };
    match first {
        Some(d) => dir_chain(d).map_values(|d: Seq<char>| joined(d, ".gitignore"@)),
        None => Seq::empty(),
    }
}

spec fn chain_after(cur: Option<String>, f: spec_fn(Seq<char>) -> Seq<char>) -> Seq<Seq<char>> {
    match cur {
        Some(c) => dir_chain(c@).map_values(f),
        None => Seq::empty(),
    }
}

/// The places to look for the `.gitignore` that governs `start`, nearest
/// first; the first of them that is a file is the one.
pub fn gitignore_candidates(start: &str, start_is_dir: bool) -> (r: Vec<String>)
    ensures
        crate::trash::strings_view(r@) == gitignore_places(start@, start_is_dir),
{
    let mut out: Vec<String> = Vec::new();
    let mut cur: Option<String> = if start_is_dir {
        Some(start.to_owned())
    } else {
        parent_path(start)
    };
    let ghost total = gitignore_places(start@, start_is_dir);
    let ghost f = |d: Seq<char>| joined(d, ".gitignore"@);
    loop
        invariant
            f == (|d: Seq<char>| joined(d, ".gitignore"@)),
            total == gitignore_places(start@, start_is_dir),
            total == crate::trash::strings_view(out@) + chain_after(cur, f),
        decreases match cur {
            Some(c) => c@.len() + 1,
            None => 0,
        },
    {
        let ghost c0 = cur;
        match cur {
            None => {
                assert(chain_after(c0, f) == Seq::<Seq<char>>::empty());
                assert(crate::trash::strings_view(out@) + Seq::<Seq<char>>::empty() =~= crate::trash::strings_view(out@));
                return out;
            },
            Some(d) => {
                let here = path_join(d.as_str(), ".gitignore");
                let up = parent_path(d.as_str());
                proof {
                    lemma_parent_shorter(d@);
                    let rest = chain_after(up, f);
                    assert(dir_chain(d@) == seq![d@] + match parent_of(d@) {
                        Some(q) => dir_chain(q),
                        None => Seq::<Seq<char>>::empty(),
                    });
                    assert(dir_chain(d@).map_values(f) =~= seq![f(d@)] + rest);
                }
                out.push(here);
                proof {
                    assert(crate::trash::strings_view(out@) =~= crate::trash::strings_view(out@.drop_last()).push(here@));
                }
                cur = up;
            },
        }
    }
}

/// The directory a gitignore walk for `target` starts from: the target
/// itself when it is a directory, else its parent (`.` when it has none).
pub open spec fn walk_root_of(target: Seq<char>, is_dir: bool) -> Seq<char> {
    if is_dir {
        target
    } else {
        match parent_of(target) {
            Some(p) => p,
            None => seq!['.'],
        }
    }
}

pub fn gitignore_walk_root(target: &str, is_dir: bool) -> (r: String)
    ensures
        r@ == walk_root_of(target@, is_dir),
{
    if is_dir {
        target.to_owned()
    } else {
        match parent_path(target) {
            Some(p) => p,
            None => {
                let mut s = String::new();
                crate::text::string_push(&mut s, '.');
                assert(s@ =~= seq!['.']);
                s
            },
        }
    }
}

// ── walks ───────────────────────────────────────────────────────
/// Whether a walk passes over a path: a `.git` directory is never entered
/// nor reported.
pub open spec fn walk_skips_path(p: Seq<char>) -> bool {
    file_name_of(p) == Some(seq!['.', 'g', 'i', 't'])
}

pub fn walk_skips(path: &str) -> (r: bool)
    ensures
        r == walk_skips_path(path@),
{
    match file_name(path) {
        None => false,
        Some(n) => {
            let c = chars_of(n.as_str());
            let r = crate::text::range_is(&c, 0, c.len(), &['.', 'g', 'i', 't']);
            proof {
                assert(c@.subrange(0, c.len() as int) =~= c@);
                assert(['.', 'g', 'i', 't']@ =~= seq!['.', 'g', 'i', 't']);
            }
            r
        },
    }
}

/// What a gitignore walk does with an entry it meets.
#[derive(Debug, Clone, Copy, PartialEq, Eq)]
pub enum WalkAction {
    /// Passes over it (a `.git` directory).
    Skip,
    /// Reports it, and does not go below it.
    Collect,
    /// Goes below it (a directory that is not ignored).
    Descend,
    /// Nothing (a file that is not ignored).
    Pass,
}

pub open spec fn gitignore_action_of(path: Seq<char>, is_dir: bool, ignored: bool) -> WalkAction {
    if walk_skips_path(path) {
        WalkAction::Skip
    } else if ignored {
        WalkAction::Collect
    } else if is_dir {
        WalkAction::Descend
    } else {
        WalkAction::Pass
    }
}


// ── --match ─────────────────────────────────────────────────────
/// Whether `--match pattern` selects a walked path: a pattern with a `/` is
/// matched against the whole path, any other against the path's file name.
pub open spec fn glob_selects(pattern: Seq<char>, path: Seq<char>) -> bool {
    if pattern.contains('/') {
        glob_matches(pattern, path)
    } else {
        file_name_of(path) matches Some(n) && glob_matches(pattern, n)
    }
}

fn has_char(v: &Vec<char>, c: char) -> (r: bool)
    ensures
        r == v@.contains(c),
{
    let mut i: usize = 0;
    while i < v.len()
        invariant
            i <= v.len(),
            forall|j: int| 0 <= j < i ==> v@[j] != c,
        decreases v.len() - i,
    {
        if v[i] == c {
            assert(v@[i as int] == c);
            return true;
        }
        i = i + 1;
    }
    false
}

/// The paths whose flag in `hits` is set, in order.
pub open spec fn picked_paths(v: Seq<Seq<char>>, hits: Seq<bool>) -> Seq<Seq<char>>
    decreases v.len(),
{
    if v.len() == 0 {
        Seq::empty()
    } else {
        picked_paths(v.drop_last(), hits.take(v.len() - 1)) + if hits[v.len() - 1] {
            seq![v.last()]
        } else {
            Seq::empty()
        }
    }
}

proof fn lemma_picked_paths(v: Seq<Seq<char>>, hits: Seq<bool>, pred: spec_fn(Seq<char>) -> bool)
    requires
        hits.len() == v.len(),
        forall|i: int| 0 <= i < v.len() ==> hits[i] == pred(#[trigger] v[i]),
    ensures
        picked_paths(v, hits) == v.filter(pred),
    decreases v.len(),
{
    if v.len() > 0 {
        let t = v.drop_last();
        let h = hits.take(v.len() - 1);
        assert forall|i: int| 0 <= i < t.len() implies h[i] == pred(#[trigger] t[i]) by {
            assert(t[i] == v[i]);
        }
        lemma_picked_paths(t, h, pred);
        assert(v =~= t.push(v.last()));
        t.lemma_filter_push(v.last(), pred);
        assert(hits[v.len() - 1] == pred(v[v.len() - 1]));
        if hits[v.len() - 1] {
            assert(picked_paths(v, hits) =~= t.filter(pred).push(v.last()));
        } else {
            assert(picked_paths(v, hits) =~= t.filter(pred));
        }
    } else {
        assert(v.filter(pred) =~= Seq::<Seq<char>>::empty());
    }
}

/// The walked paths flagged in `hits` (one flag per path), sorted, each
/// path once.
pub fn matching_sorted(walked: &Vec<String>, hits: &Vec<bool>) -> (r: Vec<String>)
    requires
        hits.len() == walked.len(),
    ensures
        sorted_unique(crate::trash::strings_view(r@), picked_paths(crate::trash::strings_view(walked@), hits@)),
{
    let ghost v = crate::trash::strings_view(walked@);
    let mut chosen: Vec<String> = Vec::new();
    let mut i: usize = 0;
    while i < walked.len()
        invariant
            i <= walked.len(),
            hits.len() == walked.len(),
            v == crate::trash::strings_view(walked@),
            crate::trash::strings_view(chosen@) == picked_paths(v.take(i as int), hits@.take(i as int)),
        decreases walked.len() - i,
    {
        proof {
            assert(v.take(i + 1).drop_last() =~= v.take(i as int));
            assert(hits@.take(i + 1).take(i as int) =~= hits@.take(i as int));
            assert(hits@.take(i + 1)[i as int] == hits@[i as int]);
            assert(v.take(i + 1).last() == v[i as int]);
        }
        if hits[i] {
            chosen.push(walked[i].clone());
            assert(crate::trash::strings_view(chosen@) =~= crate::trash::strings_view(chosen@.drop_last()).push(
                v[i as int],
            ));
        }
        i = i + 1;
    }
    assert(v.take(walked.len() as int) =~= v);
    assert(hits@.take(walked.len() as int) =~= hits@);
    sort_dedup_paths(&chosen)
}

/// The walked paths (the entries below the roots, `.git` directories left
/// out) that `pattern` selects, sorted, each path once; or, when the glob
/// is refused, why.
pub fn collect_matching(pattern: &str, walked: &Vec<String>) -> (r: Result<Vec<String>, String>)
    ensures
        match r {
            Ok(found) => glob_error(pattern@) is None && sorted_unique(
                crate::trash::strings_view(found@),
                crate::trash::strings_view(walked@).filter(|p: Seq<char>| glob_selects(pattern@, p)),
            ),
            Err(msg) => glob_error(pattern@) matches Some(e) && msg@ == "invalid glob: "@ + e,
        },
{
    let glob = match compile_glob(pattern) {
        Ok(g) => g,
        Err(e) => {
            let mut text: Vec<char> = Vec::new();
            push_str(&mut text, "invalid glob: ");
            push_str(&mut text, e.as_str());
            return Err(string_of(&text));
        },
    };
    let whole = has_char(&chars_of(pattern), '/');
    let ghost pred = |p: Seq<char>| glob_selects(pattern@, p);
    let ghost v = crate::trash::strings_view(walked@);
    let mut hits: Vec<bool> = Vec::new();
    let mut i: usize = 0;
    while i < walked.len()
        invariant
            i <= walked.len(),
            hits@.len() == i,
            v == crate::trash::strings_view(walked@),
            glob.pattern() == pattern@,
            whole == pattern@.contains('/'),
            pred == (|p: Seq<char>| glob_selects(pattern@, p)),
            forall|j: int| 0 <= j < i ==> hits@[j] == pred(#[trigger] v[j]),
        decreases walked.len() - i,
    {
        let path = walked[i].as_str();
        let hit = if whole {
            glob_is_match(&glob, path)
        } else {
            match file_name(path) {
                Some(n) => glob_is_match(&glob, n.as_str()),
                None => false,
            }
        };
        assert(v[i as int] == path@);
        assert(hit == pred(v[i as int]));
        hits.push(hit);
        i = i + 1;
    }
    proof {
        lemma_picked_paths(v, hits@, pred);
    }
    Ok(matching_sorted(walked, &hits))
}

// ── prefixes ────────────────────────────────────────────────────
/// The text of a component: a name, `.` or `..` (the root has none).
pub open spec fn part_text(p: PathPart) -> Seq<char> {
    match p {
        PathPart::Root => Seq::empty(),
        PathPart::Current => seq!['.'],
        PathPart::Parent => seq!['.', '.'],
        PathPart::Normal(n) => n,
    }
}

/// Components written out as a path: `/` for a root, the others with `/`
/// between them.
pub open spec fn render_parts(ps: Seq<PathPart>) -> Seq<char> {
    if ps.len() > 0 && ps[0] == PathPart::Root {
        seq!['/'] + joined_with(ps.drop_first().map_values(|q: PathPart| part_text(q)), seq!['/'])
    } else {
        joined_with(ps.map_values(|q: PathPart| part_text(q)), seq!['/'])
    }
}

/// `path` relative to `base`, as `Path::strip_prefix` gives it: `None`
/// unless the components of `base` begin those of `path`; otherwise the
/// components that follow, written out.
pub open spec fn strip_prefix_of(path: Seq<char>, base: Seq<char>) -> Option<Seq<char>> {
    let (p, b) = (components(path), components(base));
    if b.len() <= p.len() && p.take(b.len() as int) == b {
        Some(render_parts(p.skip(b.len() as int)))
    } else {
        None
    }
}

fn push_part(out: &mut Vec<char>, p: &Part)
    ensures
        final(out)@ == old(out)@ + part_text(p@),
{
    match p {
        Part::Root => {
            assert(old(out)@ + Seq::<char>::empty() =~= old(out)@);
        },
        Part::Current => {
            out.push('.');
            assert(final(out)@ =~= old(out)@ + seq!['.']);
        },
        Part::Parent => {
            out.push('.');
            out.push('.');
            assert(final(out)@ =~= old(out)@ + seq!['.', '.']);
        },
        Part::Normal(n) => {
            let mut i: usize = 0;
            let ghost start = out@;
            while i < n.len()
                invariant
                    i <= n.len(),
                    out@ == start + n@.take(i as int),
                decreases n.len() - i,
            {
                out.push(n[i]);
                assert(n@.take(i + 1) =~= n@.take(i as int).push(n@[i as int]));
                i = i + 1;
            }
            assert(n@.take(n.len() as int) =~= n@);
        },
    }
}

/// The parts `ps[lo..]` written out as a path.
fn render_from(ps: &Vec<Part>, lo: usize) -> (r: String)
    requires
        lo <= ps.len(),
    ensures
        r@ == render_parts(parts_view(ps@).skip(lo as int)),
{
    let ghost rest = parts_view(ps@).skip(lo as int);
    let mut out: Vec<char> = Vec::new();
    let mut k = lo;
    let rooted = lo < ps.len() && match &ps[lo] {
        Part::Root => true,
        _ => false,
    };
    proof {
        if lo < ps.len() {
            assert(rest[0] == ps@[lo as int]@);
        }
    }
    if rooted {
        out.push('/');
        k = k + 1;
    }
    let start = k;
    let ghost body = parts_view(ps@).skip(start as int);
    proof {
        if rooted {
            assert(body =~= rest.drop_first());
        } else {
            assert(body =~= rest);
        }
    }
    let ghost texts = body.map_values(|q: PathPart| part_text(q));
    let ghost head = out@;
    while k < ps.len()
        invariant
            start <= k <= ps.len(),
            body == parts_view(ps@).skip(start as int),
            texts == body.map_values(|q: PathPart| part_text(q)),
            out@ == head + joined_with(texts.take(k - start), seq!['/']),
        decreases ps.len() - k,
    {
        let ghost m = k - start;
        if k > start {
            out.push('/');
        }
        push_part(&mut out, &ps[k]);
        proof {
            assert(body[m] == ps@[k as int]@);
            assert(texts[m] == part_text(ps@[k as int]@));
            assert(texts.take(m + 1).drop_last() =~= texts.take(m));
            if m == 0 {
                assert(joined_with(texts.take(0), seq!['/']) =~= Seq::<char>::empty());
            }
            assert(out@ =~= head + joined_with(texts.take(m + 1), seq!['/']));
        }
        k = k + 1;
    }
    proof {
        assert(texts.take(k - start) =~= texts);
        if rooted {
            assert(head =~= seq!['/']);
        } else {
            assert(head =~= Seq::<char>::empty());
            assert(out@ =~= joined_with(texts, seq!['/']));
        }
    }
    string_of(&out)
}

/// `path` relative to `base` (`Path::strip_prefix`), or `None` when `base`
/// does not begin it.
pub fn strip_path_prefix(path: &str, base: &str) -> (r: Option<String>)
    ensures
        match r {
            Some(t) => strip_prefix_of(path@, base@) == Some(t@),
            None => strip_prefix_of(path@, base@) is None,
        },
{
    let p = path_parts(path);
    let b = path_parts(base);
    let ghost (vp, vb) = (parts_view(p@), parts_view(b@));
    if b.len() > p.len() {
        return None;
    }
    let mut i: usize = 0;
    while i < b.len()
        invariant
            i <= b.len() <= p.len(),
            vp == parts_view(p@),
            vb == parts_view(b@),
            vp == components(path@),
            vb == components(base@),
            forall|j: int| 0 <= j < i ==> vp[j] == vb[j],
        decreases b.len() - i,
    {
        match part_rank_between(&p[i], &b[i]) {
            Rank::Same => {},
            _ => {
                proof {
                    assert(vp[i as int] == p@[i as int]@);
                    assert(vb[i as int] == b@[i as int]@);
                    assert(vp.take(vb.len() as int)[i as int] != vb[i as int]);
                }
                return None;
            },
        }
        i = i + 1;
    }
    assert(vp.take(vb.len() as int) =~= vb);
    Some(render_from(&p, b.len()))
}

/// Whether two paths have the same components (`Path`'s `==`).
pub fn same_path(a: &str, b: &str) -> (r: bool)
    ensures
        r == (components(a@) == components(b@)),
{
    let pa = path_parts(a);
    let pb = path_parts(b);
    match parts_rank(&pa, &pb) {
        Rank::Same => true,
        _ => false,
    }
}

} // verus!
