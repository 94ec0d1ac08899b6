//! `.gitignore` rules: compiled from the lines of the file with the `ignore`
//! crate, and asked about the entries of a walk.
use crate::paths::{gitignore_action_of, sort_dedup_paths, sorted_unique, walk_skips, WalkAction};
use crate::trash::strings_view;
use crate::text::{chars_of, decimal_text};
use vstd::prelude::*;

verus! {

#[verifier::external_type_specification]
#[verifier::external_body]
pub struct ExGitignoreBuilder(ignore::gitignore::GitignoreBuilder);

#[verifier::external_type_specification]
#[verifier::external_body]
pub struct ExGitignore(ignore::gitignore::Gitignore);

/// What `GitignoreBuilder::add_line` says of a line: `None` when it takes
/// it, otherwise its error message.
pub uninterp spec fn gitignore_line_refusal(line: Seq<char>) -> Option<Seq<char>>;

/// What `GitignoreBuilder::build` says once the builder made for `root` took
/// `lines`: `None` when it builds, otherwise its error message.
pub uninterp spec fn gitignore_build_refusal(root: Seq<char>, lines: Seq<Seq<char>>) -> Option<Seq<char>>;

/// What the rules of `lines`, rooted at `root`, say of `path` (a directory
/// when `is_dir`) or of one of its parents, as
/// `Gitignore::matched_path_or_any_parents` tells: `None` when no rule
/// matches, `Some(true)` when the path is ignored, `Some(false)` when a
/// `!` rule lets it through.
pub uninterp spec fn gitignore_match(root: Seq<char>, lines: Seq<Seq<char>>, path: Seq<char>, is_dir: bool) -> Option<bool>;

/// A refused line as the `ignore` crate reports it when it reads the file
/// `path`: `{path}: line {n}: {msg}`, the path left out when it is empty.
pub open spec fn tagged_refusal(path: Seq<char>, n: nat, msg: Seq<char>) -> Seq<char> {
    let tail = seq!['l', 'i', 'n', 'e', ' '] + decimal_text(n) + seq![':', ' '] + msg;
    if path.len() == 0 {
        tail
    } else {
        path + seq![':', ' '] + tail
    }
}

/// The refusals of the lines of the file `path`, each tagged with the file
/// and its line number (counted from 1), in order.
pub open spec fn line_refusals(path: Seq<char>, lines: Seq<Seq<char>>) -> Seq<Seq<char>>
    decreases lines.len(),
{
    if lines.len() == 0 {
        Seq::empty()
    } else {
        let prev = line_refusals(path, lines.drop_last());
        match gitignore_line_refusal(lines.last()) {
            Some(msg) => prev.push(tagged_refusal(path, lines.len(), msg)),
            None => prev,
        }
    }
}

/// Messages one per line, joined with newlines.
pub open spec fn joined_lines(msgs: Seq<Seq<char>>) -> Seq<char>
    decreases msgs.len(),
{
    if msgs.len() == 0 {
        Seq::empty()
    } else if msgs.len() == 1 {
        msgs[0]
    } else {
        joined_lines(msgs.drop_last()) + seq!['\n'] + msgs.last()
    }
}

/// Why the rules of the file `path`, whose lines are `lines` and whose
/// directory is `root`, cannot be compiled, if they cannot: every refused
/// line is reported, or else the failure of the whole.
pub open spec fn gitignore_refusal(path: Seq<char>, root: Seq<char>, lines: Seq<Seq<char>>) -> Option<Seq<char>> {
    let refused = line_refusals(path, lines);
    if refused.len() > 0 {
        Some(seq!['f', 'a', 'i', 'l', 'e', 'd', ' ', 't', 'o', ' ', 'r', 'e', 'a', 'd', ' '] + path + seq![':', ' ']
            + joined_lines(refused))
    } else {
        match gitignore_build_refusal(root, lines) {
            Some(msg) => Some(
                seq!['f', 'a', 'i', 'l', 'e', 'd', ' ', 't', 'o', ' ', 'c', 'o', 'm', 'p', 'i', 'l', 'e', ' ']
                    + path + seq![':', ' '] + msg,
            ),
            None => None,
        }
    }
}

/// A line with the byte order marks at its start taken off.
pub open spec fn without_bom(line: Seq<char>) -> Seq<char>
    decreases line.len(),
{
    if line.len() > 0 && line[0] == '\u{feff}' {
        without_bom(line.drop_first())
    } else {
        line
    }
}

/// The lines of a `.gitignore` file as the rules read them: byte order
/// marks at the start of the first line are ignored.
pub open spec fn rule_lines(lines: Seq<Seq<char>>) -> Seq<Seq<char>> {
    if lines.len() == 0 {
        lines
    } else {
        lines.update(0, without_bom(lines[0]))
    }
}

/// Compiled `.gitignore` rules, with the root and the lines they were
/// compiled from.
pub struct CompiledGitignore {
    /// An absolute path.
    root: String,
    lines: Ghost<Seq<Seq<char>>>,
    matcher: ignore::gitignore::Gitignore,
}

impl CompiledGitignore {
    pub closed spec fn root(&self) -> Seq<char> {
        self.root@
    }

    pub closed spec fn lines(&self) -> Seq<Seq<char>> {
        self.lines@
    }
}

/// A builder with the root and the lines it has taken so far.
struct Draft {
    root: String,
    lines: Ghost<Seq<Seq<char>>>,
    builder: ignore::gitignore::GitignoreBuilder,
}

impl Draft {
    closed spec fn root(&self) -> Seq<char> {
        self.root@
    }

    closed spec fn lines(&self) -> Seq<Seq<char>> {
        self.lines@
    }
}

/// `GitignoreBuilder::new`: a builder for rules rooted at `root`, which has
/// taken no line yet.
#[verifier::external_body]
fn draft_new(root: &str) -> (d: Draft)
    ensures
        d.root() == root@,
        d.lines() == Seq::<Seq<char>>::empty(),
{
    Draft { root: root.to_owned(), lines: Ghost(Seq::empty()), builder: ignore::gitignore::GitignoreBuilder::new(root) }
}

/// `GitignoreBuilder::add_line`: whether it takes a line is a fixed function
/// of the line, named `gitignore_line_refusal` here (its error is given as
/// its message). A line it takes is recorded in `d`; one it refuses leaves
/// the builder as it was.
#[verifier::external_body]
fn gitignore_add_line(d: &mut Draft, line: &str) -> (r: Option<String>)
    ensures
        final(d).root() == old(d).root(),
        match r {
            None => gitignore_line_refusal(line@) is None && final(d).lines() == old(d).lines().push(line@),
            Some(msg) => gitignore_line_refusal(line@) == Some(msg@) && final(d).lines() == old(d).lines(),
        },
{
    match d.builder.add_line(None, line) {
        Ok(_) => {
            d.lines = Ghost(d.lines@.push(line@));
            None
        },
        Err(e) => Some(e.to_string()),
    }
}

/// `GitignoreBuilder::build` on the builder `d` holds: whether it builds is a
/// fixed function of the root and the lines taken, named
/// `gitignore_build_refusal` here (only `draft_new` and `gitignore_add_line`
/// make and change a `Draft`). The matcher it gives is kept with that root
/// and those lines.
#[verifier::external_body]
fn gitignore_build(d: &Draft) -> (r: Result<CompiledGitignore, String>)
    ensures
        match r {
            Ok(g) => gitignore_build_refusal(d.root(), d.lines()) is None && g.root() == d.root() && g.lines()
                == d.lines(),
            Err(msg) => gitignore_build_refusal(d.root(), d.lines()) == Some(msg@),
        },
{
    match d.builder.build() {
        Ok(matcher) => Ok(CompiledGitignore { root: d.root.clone(), lines: Ghost(d.lines@), matcher }),
        Err(e) => Err(e.to_string()),
    }
}

/// Whether `path` can be asked of rules rooted at `root` (an absolute
/// path): `Gitignore::matched_path_or_any_parents` requires that, once a
/// leading `./` is taken off, and then the root (as a prefix of the text)
/// with one `/` after it when the path starts with the root, the path does
/// not start at `/`.
pub open spec fn gitignore_covers(root: Seq<char>, path: Seq<char>) -> bool {
    let p = if path.len() >= 2 && path[0] == '.' && path[1] == '/' {
        path.skip(2)
    } else {
        path
    };
    let rest = if p.len() >= root.len() && p.take(root.len() as int) == root {
        let q = p.skip(root.len() as int);
        if q.len() > 0 && q[0] == '/' {
            q.skip(1)
        } else {
            q
        }
    } else {
        p
    };
    !(rest.len() > 0 && rest[0] == '/')
}

/// `Gitignore::matched_path_or_any_parents` on the rules `g` holds: what
/// they say of `path` or of one of its parents, a fixed function of the
/// root, the lines, the path and whether it is a directory, named
/// `gitignore_match` here (only `gitignore_build` builds a
/// `CompiledGitignore`, from the builder that took those lines). The call
/// asserts that the path lies under the root, hence the `requires`.
#[verifier::external_body]
pub(crate) fn gitignore_matched(g: &CompiledGitignore, path: &str, is_dir: bool) -> (r: Option<bool>)
    requires
        gitignore_covers(g.root(), path@),
    ensures
        r == gitignore_match(g.root(), g.lines(), path@, is_dir),
{
    match g.matcher.matched_path_or_any_parents(path, is_dir) {
        ignore::Match::None => None,
        ignore::Match::Ignore(_) => Some(true),
        ignore::Match::Whitelist(_) => Some(false),
    }
}

/// `line` without the byte order marks at its start.
fn strip_bom(line: &str) -> (r: String)
    ensures
        r@ == without_bom(line@),
{
    let cs = chars_of(line);
    let mut k: usize = 0;
    proof {
        assert(cs@.skip(0) =~= cs@);
    }
    while k < cs.len() && cs[k] == '\u{feff}'
        invariant
            k <= cs.len(),
            without_bom(cs@) == without_bom(cs@.skip(k as int)),
        decreases cs.len() - k,
    {
        assert(cs@.skip(k as int).drop_first() =~= cs@.skip(k + 1));
        k = k + 1;
    }
    proof {
        assert(cs@.skip(0) =~= cs@);
    }
    let r = crate::text::string_of_range(&cs, k, cs.len());
    assert(cs@.subrange(k as int, cs.len() as int) =~= cs@.skip(k as int));
    r
}

/// Appends the text of refused line `n` of the file `path` (see
/// `tagged_refusal`).
fn push_tagged(out: &mut Vec<char>, path: &str, n: usize, msg: &str)
    ensures
        final(out)@ == old(out)@ + tagged_refusal(path@, n as nat, msg@),
{
    let pc = chars_of(path);
    if pc.len() > 0 {
        crate::text::push_str(out, path);
        out.push(':');
        out.push(' ');
    }
    out.push('l');
    out.push('i');
    out.push('n');
    out.push('e');
    out.push(' ');
    crate::text::push_decimal(out, n as u128);
    out.push(':');
    out.push(' ');
    crate::text::push_str(out, msg);
    proof {
        let tail = seq!['l', 'i', 'n', 'e', ' '] + decimal_text(n as nat) + seq![':', ' '] + msg@;
        if pc.len() > 0 {
            assert(final(out)@ =~= old(out)@ + (path@ + seq![':', ' '] + tail));
        } else {
            assert(final(out)@ =~= old(out)@ + tail);
        }
    }
}

/// `prefix`, then `path`, `: ` and `msg`.
fn framed(prefix: &str, path: &str, msg: &Vec<char>) -> (r: String)
    ensures
        r@ == prefix@ + path@ + seq![':', ' '] + msg@,
{
    let mut out: Vec<char> = Vec::new();
    crate::text::push_str(&mut out, prefix);
    crate::text::push_str(&mut out, path);
    out.push(':');
    out.push(' ');
    let ghost before = out@;
    let mut i: usize = 0;
    while i < msg.len()
        invariant
            i <= msg.len(),
            out@ == before + msg@.take(i as int),
        decreases msg.len() - i,
    {
        out.push(msg[i]);
        assert(msg@.take(i + 1) =~= msg@.take(i as int).push(msg@[i as int]));
        i = i + 1;
    }
    assert(msg@.take(msg.len() as int) =~= msg@);
    assert(out@ =~= prefix@ + path@ + seq![':', ' '] + msg@);
    crate::text::string_of(&out)
}

/// Compiles the rules of the `.gitignore` file `path`, whose directory is
/// `root` and whose lines are `lines`, or gives why they cannot be (see
/// `gitignore_refusal`). The root is an absolute path.
pub fn compile_gitignore(path: &str, root: &str, lines: &Vec<String>) -> (r: Result<CompiledGitignore, String>)
    requires
        root@.len() > 0 && root@[0] == '/',
    ensures
        match r {
            Ok(g) => gitignore_refusal(path@, root@, rule_lines(strings_view(lines@))) is None && g.root()
                == root@ && g.lines() == rule_lines(strings_view(lines@)),
            Err(msg) => gitignore_refusal(path@, root@, rule_lines(strings_view(lines@))) == Some(msg@),
        },
{
    let ghost all = rule_lines(strings_view(lines@));
    let mut d = draft_new(root);
    let mut msg: Vec<char> = Vec::new();
    let mut refused: usize = 0;
    let mut i: usize = 0;
    proof {
        assert(all.take(0) =~= Seq::<Seq<char>>::empty());
    }
    while i < lines.len()
        invariant
            i <= lines.len(),
            all == rule_lines(strings_view(lines@)),
            all.len() == lines.len(),
            d.root() == root@,
            refused <= i,
            refused == line_refusals(path@, all.take(i as int)).len(),
            msg@ == joined_lines(line_refusals(path@, all.take(i as int))),
            refused == 0 ==> d.lines() == all.take(i as int),
        decreases lines.len() - i,
    {
        let line = if i == 0 {
            strip_bom(lines[0].as_str())
        } else {
            lines[i].clone()
        };
        let ghost prev = line_refusals(path@, all.take(i as int));
        proof {
            assert(all[i as int] == line@);
            assert(all.take(i + 1).drop_last() =~= all.take(i as int));
            assert(all.take(i + 1).last() == line@);
        }
        match gitignore_add_line(&mut d, line.as_str()) {
            Some(m) => {
                let ghost before = msg@;
                if refused > 0 {
                    msg.push('\n');
                }
                push_tagged(&mut msg, path, i + 1, m.as_str());
                proof {
                    let now = prev.push(tagged_refusal(path@, (i + 1) as nat, m@));
                    assert(line_refusals(path@, all.take(i + 1)) == now);
                    assert(now.drop_last() =~= prev);
                    if refused > 0 {
                        assert(msg@ =~= joined_lines(now));
                    } else {
                        assert(prev.len() == 0);
                        assert(msg@ =~= joined_lines(now));
                    }
                }
                refused = refused + 1;
            },
            None => {
                proof {
                    assert(line_refusals(path@, all.take(i + 1)) == prev);
                }
            },
        }
        i = i + 1;
    }
    proof {
        assert(all.take(lines.len() as int) =~= all);
    }
    if refused > 0 {
        let r = framed("failed to read ", path, &msg);
        proof {
            reveal_strlit("failed to read ");
            assert("failed to read "@ =~= seq!['f', 'a', 'i', 'l', 'e', 'd', ' ', 't', 'o', ' ', 'r', 'e', 'a', 'd', ' ']);
        }
        return Err(r);
    }
    match gitignore_build(&d) {
        Ok(g) => Ok(g),
        Err(m) => {
            let mc = chars_of(m.as_str());
            let r = framed("failed to compile ", path, &mc);
            proof {
                reveal_strlit("failed to compile ");
                assert("failed to compile "@ =~= seq![
                    'f', 'a', 'i', 'l', 'e', 'd', ' ', 't', 'o', ' ', 'c', 'o', 'm', 'p', 'i', 'l', 'e', ' ',
                ]);
            }
            Err(r)
        },
    }
}

/// Whether the rules of a `.gitignore` file in the directory `root` apply to
/// `path`: the path lies below that directory.
pub open spec fn rules_apply(root: Seq<char>, path: Seq<char>) -> bool {
    path.len() > root.len() && path.take(root.len() as int) == root && ((root.len() > 0 && root.last() == '/')
        || path[root.len() as int] == '/')
}

/// Every set of rules in `rules` that applies to `path` can be asked about it.
pub open spec fn rules_cover(rules: Seq<CompiledGitignore>, path: Seq<char>) -> bool {
    forall|i: int|
        0 <= i < rules.len() && rules_apply(rules[i].root(), path) ==> gitignore_covers(
            #[trigger] rules[i].root(),
            path,
        )
}

/// What the deepest `.gitignore` among `rules` that applies to `path` and
/// has a rule matching it says: the length of its directory and whether it
/// ignores the path. Files deeper down override those above them, as in
/// git; of two in the same directory the later one decides.
pub open spec fn deepest_match(rules: Seq<CompiledGitignore>, path: Seq<char>, is_dir: bool) -> Option<(nat, bool)>
    decreases rules.len(),
{
    if rules.len() == 0 {
        None
    } else {
        let prev = deepest_match(rules.drop_last(), path, is_dir);
        let g = rules.last();
        if rules_apply(g.root(), path) {
            match gitignore_match(g.root(), g.lines(), path, is_dir) {
                Some(ignored) => match prev {
                    Some(best) => if best.0 > g.root().len() {
                        prev
                    } else {
                        Some((g.root().len(), ignored))
                    },
                    None => Some((g.root().len(), ignored)),
                },
                None => prev,
            }
        } else {
            prev
        }
    }
}

/// Whether the `.gitignore` files `rules` ignore `path`.
pub open spec fn ignored_under(rules: Seq<CompiledGitignore>, path: Seq<char>, is_dir: bool) -> bool {
    match deepest_match(rules, path, is_dir) {
        Some(best) => best.1,
        None => false,
    }
}

/// Whether the rules rooted at `root` apply to `path` (see `rules_apply`).
fn applies(root: &String, path: &str) -> (r: bool)
    ensures
        r == rules_apply(root@, path@),
{
    let rc = chars_of(root.as_str());
    let pc = chars_of(path);
    let m = rc.len();
    if pc.len() <= m {
        return false;
    }
    let head = crate::text::range_is(&pc, 0, m, rc.as_slice());
    proof {
        assert(pc@.subrange(0, m as int) =~= path@.take(m as int));
    }
    head && ((m > 0 && rc[m - 1] == '/') || pc[m] == '/')
}

/// What the deepest of `rules` that applies to `path` and matches it says
/// (see `deepest_match`), the length of its directory given as a `usize`.
fn deepest_verdict(rules: &Vec<CompiledGitignore>, path: &str, is_dir: bool) -> (r: Option<(usize, bool)>)
    requires
        rules_cover(rules@, path@),
    ensures
        match r {
            Some(best) => deepest_match(rules@, path@, is_dir) == Some((best.0 as nat, best.1)),
            None => deepest_match(rules@, path@, is_dir) is None,
        },
{
    let mut best: Option<(usize, bool)> = None;
    let mut i: usize = 0;
    proof {
        assert(rules@.take(0) =~= Seq::<CompiledGitignore>::empty());
    }
    while i < rules.len()
        invariant
            i <= rules.len(),
            rules_cover(rules@, path@),
            match best {
                Some(b) => deepest_match(rules@.take(i as int), path@, is_dir) == Some((b.0 as nat, b.1)),
                None => deepest_match(rules@.take(i as int), path@, is_dir) is None,
            },
        decreases rules.len() - i,
    {
        let g = &rules[i];
        proof {
            assert(rules@.take(i + 1).drop_last() =~= rules@.take(i as int));
            assert(rules@.take(i + 1).last() == rules@[i as int]);
        }
        if applies(&g.root, path) {
            proof {
                assert(gitignore_covers(rules@[i as int].root(), path@));
            }
            match gitignore_matched(g, path, is_dir) {
                Some(ignored) => {
                    let len = chars_of(g.root.as_str()).len();
                    best = match best {
                        Some(b) => if b.0 > len {
                            Some(b)
                        } else {
                            Some((len, ignored))
                        },
                        None => Some((len, ignored)),
                    };
                },
                None => {},
            }
        }
        i = i + 1;
    }
    proof {
        assert(rules@.take(rules.len() as int) =~= rules@);
    }
    best
}

/// What the walk that collects ignored entries does with `path` (see
/// `gitignore_action_of`), under the `.gitignore` files `rules` (see
/// `ignored_under`); `None` when one of them applies to the path but cannot
/// be asked about it.
pub fn gitignore_action(rules: &Vec<CompiledGitignore>, path: &str, is_dir: bool) -> (r: Option<WalkAction>)
    ensures
        match r {
            None => !rules_cover(rules@, path@),
            Some(a) => rules_cover(rules@, path@) && a == gitignore_action_of(
                path@,
                is_dir,
                ignored_under(rules@, path@, is_dir),
            ),
        },
{
    let mut i: usize = 0;
    while i < rules.len()
        invariant
            i <= rules.len(),
            forall|j: int|
                0 <= j < i && rules_apply(rules@[j].root(), path@) ==> gitignore_covers(
                    #[trigger] rules@[j].root(),
                    path@,
                ),
        decreases rules.len() - i,
    {
        if applies(&rules[i].root, path) && !covers(&rules[i].root, path) {
            proof {
                assert(rules_apply(rules@[i as int].root(), path@));
                assert(!gitignore_covers(rules@[i as int].root(), path@));
            }
            return None;
        }
        i = i + 1;
    }
    if walk_skips(path) {
        return Some(WalkAction::Skip);
    }
    let ignored = match deepest_verdict(rules, path, is_dir) {
        Some(best) => best.1,
        None => false,
    };
    Some(
        if ignored {
            WalkAction::Collect
        } else if is_dir {
            WalkAction::Descend
        } else {
            WalkAction::Pass
        },
    )
}

/// Whether `path` can be asked of rules rooted at `root` (see
/// `gitignore_covers`).
#[verifier::rlimit(30)]
fn covers(root: &String, path: &str) -> (r: bool)
    ensures
        r == gitignore_covers(root@, path@),
{
    let rc = chars_of(root.as_str());
    let pc = chars_of(path);
    let dot = pc.len() >= 2 && pc[0] == '.' && pc[1] == '/';
    let p0: usize = if dot {
        2
    } else {
        0
    };
    let ghost p = if path@.len() >= 2 && path@[0] == '.' && path@[1] == '/' {
        path@.skip(2)
    } else {
        path@
    };
    assert(p =~= pc@.skip(p0 as int));
    let m = rc.len();
    let has_root = pc.len() - p0 >= m && crate::text::range_is(&pc, p0, p0 + m, rc.as_slice());
    proof {
        if pc.len() - p0 >= m {
            assert(pc@.subrange(p0 as int, (p0 + m) as int) =~= p.take(m as int));
        }
    }
    let s1: usize = if has_root {
        p0 + m
    } else {
        p0
    };
    let ghost q = pc@.skip(s1 as int);
    let slash = has_root && s1 < pc.len() && pc[s1] == '/';
    let s2: usize = if slash {
        s1 + 1
    } else {
        s1
    };
    proof {
        if has_root {
            assert(q =~= p.skip(m as int));
            if slash {
                assert(q.skip(1) =~= pc@.skip(s2 as int));
            }
        } else {
            assert(pc@.skip(s2 as int) =~= p);
        }
    }
    !(s2 < pc.len() && pc[s2] == '/')
}


/// The entries of a walk, each a path and whether it is a directory, as
/// plain values.
pub open spec fn walk_view(s: Seq<(String, bool)>) -> Seq<(Seq<char>, bool)> {
    s.map_values(|e: (String, bool)| (e.0@, e.1))
}

/// The paths among the walked entries `walked` that the walk reports under
/// the `.gitignore` files `rules` (`WalkAction::Collect`), in the order of
/// the walk.
pub open spec fn collected(rules: Seq<CompiledGitignore>, walked: Seq<(Seq<char>, bool)>) -> Seq<Seq<char>>
    decreases walked.len(),
{
    if walked.len() == 0 {
        Seq::empty()
    } else {
        let prev = collected(rules, walked.drop_last());
        let p = walked.last().0;
        let d = walked.last().1;
        if gitignore_action_of(p, d, ignored_under(rules, p, d)) == WalkAction::Collect {
            prev.push(p)
        } else {
            prev
        }
    }
}

/// What each walk, in turn, reports under its own `.gitignore` files.
pub open spec fn collected_all(walks: Seq<(Vec<CompiledGitignore>, Vec<(String, bool)>)>) -> Seq<Seq<char>>
    decreases walks.len(),
{
    if walks.len() == 0 {
        Seq::empty()
    } else {
        collected_all(walks.drop_last()) + collected(walks.last().0@, walk_view(walks.last().1@))
    }
}

/// Every walked entry can be asked of each `.gitignore` file of its walk
/// that applies to it.
pub open spec fn walks_covered(walks: Seq<(Vec<CompiledGitignore>, Vec<(String, bool)>)>) -> bool {
    forall|i: int, j: int|
        0 <= i < walks.len() && 0 <= j < walks[i].1@.len() ==> rules_cover(
            walks[i].0@,
            #[trigger] walks[i].1@[j].0@,
        )
}

/// The entries that `.gitignore` files ignore, over walks of several roots:
/// each walk is the `.gitignore` files that bear on it (in the directories
/// above its root and below it) and the entries met below its root (a walk
/// does not go below an entry it reports). The result is every reported
/// path, sorted, each once; `None` when a file that applies to an entry
/// cannot be asked about it.
pub fn collect_gitignored(walks: &Vec<(Vec<CompiledGitignore>, Vec<(String, bool)>)>) -> (r: Option<Vec<String>>)
    ensures
        match r {
            None => !walks_covered(walks@),
            Some(v) => walks_covered(walks@) && sorted_unique(strings_view(v@), collected_all(walks@)),
        },
{
    let mut found: Vec<String> = Vec::new();
    let mut i: usize = 0;
    proof {
        assert(walks@.take(0) =~= Seq::<(Vec<CompiledGitignore>, Vec<(String, bool)>)>::empty());
        assert(strings_view(found@) =~= Seq::<Seq<char>>::empty());
    }
    while i < walks.len()
        invariant
            i <= walks.len(),
            strings_view(found@) == collected_all(walks@.take(i as int)),
            forall|a: int, b: int|
                0 <= a < i && 0 <= b < walks@[a].1@.len() ==> rules_cover(
                    walks@[a].0@,
                    #[trigger] walks@[a].1@[b].0@,
                ),
        decreases walks.len() - i,
    {
        let rules = &walks[i].0;
        let es = &walks[i].1;
        let ghost before = strings_view(found@);
        let mut j: usize = 0;
        proof {
            assert(walk_view(es@).take(0) =~= Seq::<(Seq<char>, bool)>::empty());
            assert(before + Seq::<Seq<char>>::empty() =~= before);
        }
        while j < es.len()
            invariant
                i < walks.len(),
                rules == &walks@[i as int].0,
                es == &walks@[i as int].1,
                j <= es.len(),
                before == collected_all(walks@.take(i as int)),
                strings_view(found@) == before + collected(rules@, walk_view(es@).take(j as int)),
                forall|b: int| 0 <= b < j ==> rules_cover(rules@, #[trigger] es@[b].0@),
            decreases es.len() - j,
        {
            let path = es[j].0.as_str();
            let is_dir = es[j].1;
            let ghost w = walk_view(es@);
            proof {
                assert(w.take(j + 1).drop_last() =~= w.take(j as int));
                assert(w.take(j + 1).last() == (path@, is_dir));
            }
            match gitignore_action(rules, path, is_dir) {
                None => {
                    return None;
                },
                Some(WalkAction::Collect) => {
                    let ghost prev = strings_view(found@);
                    found.push(es[j].0.clone());
                    proof {
                        assert(strings_view(found@) =~= prev.push(path@));
                        assert(strings_view(found@) =~= before + collected(rules@, w.take(j + 1)));
                    }
                },
                Some(_) => {},
            }
            j = j + 1;
        }
        proof {
            assert(walk_view(es@).take(es.len() as int) =~= walk_view(es@));
            assert(walks@.take(i + 1).drop_last() =~= walks@.take(i as int));
            assert(walks@.take(i + 1).last() == walks@[i as int]);
        }
        i = i + 1;
    }
    proof {
        assert(walks@.take(walks.len() as int) =~= walks@);
    }
    Some(sort_dedup_paths(&found))
}

} // verus!
