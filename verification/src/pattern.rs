//! Regular expressions (the `regex` crate) and globs (the `globset` crate).
use vstd::prelude::*;

verus! {

#[verifier::external_type_specification]
#[verifier::external_body]
pub struct ExRegex(regex::Regex);

#[verifier::external_type_specification]
#[verifier::external_body]
pub struct ExGlob(globset::Glob);

#[verifier::external_type_specification]
#[verifier::external_body]
pub struct ExGlobSet(globset::GlobSet);

/// The characters that `regex::escape` puts a backslash before.
pub open spec fn is_regex_meta(c: char) -> bool {
    c == '\\' || c == '.' || c == '+' || c == '*' || c == '?' || c == '(' || c == ')' || c == '|'
        || c == '[' || c == ']' || c == '{' || c == '}' || c == '^' || c == '$' || c == '#' || c
        == '&' || c == '-' || c == '~'
}

/// `s` with a backslash before each regex meta character.
pub open spec fn regex_escaped(s: Seq<char>) -> Seq<char>
    decreases s.len(),
{
    if s.len() == 0 {
        s
    } else {
        let last = s.last();
        regex_escaped(s.drop_last()) + if is_regex_meta(last) {
            seq!['\\', last]
        } else {
            seq![last]
        }
    }
}

/// `regex::escape`: escapes every meta character of `s`, so that the result
/// matches `s` literally.
#[verifier::external_body]
pub(crate) fn regex_escape(s: &str) -> (r: String)
    ensures
        r@ == regex_escaped(s@),
{
    regex::escape(s)
}

/// Whether `regex::Regex::new` accepts a pattern.
pub uninterp spec fn regex_accepts(pattern: Seq<char>) -> bool;

/// Whether the regex compiled from `pattern` matches somewhere in `hay`.
pub uninterp spec fn regex_finds(pattern: Seq<char>, hay: Seq<char>) -> bool;

/// A compiled regular expression, with the pattern it was compiled from.
pub struct CompiledRegex {
    source: String,
    re: regex::Regex,
}

impl CompiledRegex {
    pub closed spec fn pattern(&self) -> Seq<char> {
        self.source@
    }
}

/// `regex::Regex::new`: whether it accepts a pattern is a fixed function of
/// the pattern, named `regex_accepts` here. Its error is not kept; the
/// regex it gives is kept with the pattern it was compiled from.
#[verifier::external_body]
fn regex_new(pattern: &str) -> (r: Option<CompiledRegex>)
    ensures
        r is Some == regex_accepts(pattern@),
        r matches Some(c) ==> c.pattern() == pattern@,
{
    match regex::Regex::new(pattern) {
        Ok(re) => Some(CompiledRegex { source: pattern.to_owned(), re }),
        Err(_) => None,
    }
}

/// Compiles `pattern`, when the `regex` crate accepts it.
pub fn compile_regex(pattern: &str) -> (r: Option<CompiledRegex>)
    ensures
        r is Some == regex_accepts(pattern@),
        r matches Some(c) ==> c.pattern() == pattern@,
{
    regex_new(pattern)
}

/// `regex::Regex::is_match` on the regex that `c` holds: whether it matches
/// somewhere in `hay`. The result is named `regex_finds` of the pattern the
/// regex was compiled from (only `regex_new` builds a `CompiledRegex`, from
/// the regex that `Regex::new` gave for that pattern).
#[verifier::external_body]
pub(crate) fn regex_is_match(c: &CompiledRegex, hay: &str) -> (r: bool)
    ensures
        r == regex_finds(c.pattern(), hay@),
{
    c.re.is_match(hay)
}

/// What `globset::Glob::new` says of a pattern: `None` when it accepts it,
/// otherwise its error message.
pub uninterp spec fn glob_refusal(pattern: Seq<char>) -> Option<Seq<char>>;

/// What `globset::GlobSet::new` says of the set of the one glob that
/// `Glob::new` built from `pattern`: `None` when it compiles, otherwise its
/// error message (a glob can be too deeply nested for the regex it becomes).
pub uninterp spec fn glob_set_refusal(pattern: Seq<char>) -> Option<Seq<char>>;

/// Why the glob `pattern` cannot be used, if it cannot: its parse fails, or
/// the matcher built from it does.
pub open spec fn glob_error(pattern: Seq<char>) -> Option<Seq<char>> {
    match glob_refusal(pattern) {
        Some(e) => Some(e),
        None => glob_set_refusal(pattern),
    }
}

/// Whether the glob compiled from `pattern` matches the path `path`.
pub uninterp spec fn glob_matches(pattern: Seq<char>, path: Seq<char>) -> bool;

/// A glob as parsed, with the pattern it was parsed from.
struct ParsedGlob {
    source: String,
    glob: globset::Glob,
}

impl ParsedGlob {
    closed spec fn text(&self) -> Seq<char> {
        self.source@
    }
}

/// A compiled glob, with the pattern it was compiled from.
pub struct CompiledGlob {
    source: String,
    set: globset::GlobSet,
}

impl CompiledGlob {
    pub closed spec fn pattern(&self) -> Seq<char> {
        self.source@
    }
}

/// `globset::Glob::new`: whether it accepts a pattern, and its error message
/// when it does not, are a fixed function of the pattern, named
/// `glob_refusal` here. The glob it gives is kept with the pattern it was
/// parsed from.
#[verifier::external_body]
fn glob_new(pattern: &str) -> (r: Result<ParsedGlob, String>)
    ensures
        match r {
            Ok(p) => glob_refusal(pattern@) is None && p.text() == pattern@,
            Err(msg) => glob_refusal(pattern@) == Some(msg@),
        },
{
    match globset::Glob::new(pattern) {
        Ok(glob) => Ok(ParsedGlob { source: pattern.to_owned(), glob }),
        Err(e) => Err(e.to_string()),
    }
}

/// `globset::GlobSet::new` on the one glob that `p` holds: whether it
/// succeeds, and its error message when it does not, are a fixed function of
/// the pattern the glob was parsed from, named `glob_set_refusal` here (only
/// `glob_new` builds a `ParsedGlob`). The set it gives is kept with that
/// pattern.
#[verifier::external_body]
fn glob_set_new(p: ParsedGlob) -> (r: Result<CompiledGlob, String>)
    ensures
        match r {
            Ok(g) => glob_set_refusal(p.text()) is None && g.pattern() == p.text(),
            Err(msg) => glob_set_refusal(p.text()) == Some(msg@),
        },
{
    match globset::GlobSet::new([&p.glob]) {
        Ok(set) => Ok(CompiledGlob { source: p.source, set }),
        Err(e) => Err(e.to_string()),
    }
}

/// Compiles the glob `pattern`, or gives the reason it cannot be used.
pub fn compile_glob(pattern: &str) -> (r: Result<CompiledGlob, String>)
    ensures
        match r {
            Ok(g) => glob_error(pattern@) is None && g.pattern() == pattern@,
            Err(msg) => glob_error(pattern@) == Some(msg@),
        },
{
    match glob_new(pattern) {
        Ok(parsed) => glob_set_new(parsed),
        Err(msg) => Err(msg),
    }
}

/// `globset::GlobSet::is_match` on the set of one glob that `g` holds, for
/// the path `path`: whether that glob matches it. The result is named
/// `glob_matches` of the pattern the glob was compiled from (only
/// `glob_set_new` builds a `CompiledGlob`, from the glob that `Glob::new`
/// gave for that pattern).
#[verifier::external_body]
pub(crate) fn glob_is_match(g: &CompiledGlob, path: &str) -> (r: bool)
    ensures
        r == glob_matches(g.pattern(), path@),
{
    g.set.is_match(path)
}

} // verus!
