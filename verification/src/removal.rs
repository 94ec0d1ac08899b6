//! The removal command's decisions: where its targets come from, what is
//! done to each, what a confirmation answer means and how the run is summed
//! up.
use crate::paths::{components, parent_of, parent_path, same_path};
use crate::text::{chars_of, push_decimal, push_str, string_of, trim, trim_bounds, decimal_text};
use crate::trash::{opt_view, strings_view, TrashEntry};
use vstd::prelude::*;

verus! {

/// Where the targets of a removal come from.
#[derive(Debug, Clone)]
pub enum TargetSource {
    /// `--match`: the entries below the roots that the glob selects.
    Matching { pattern: String, roots: Vec<String> },
    /// `--remove-ignore`: the entries that the roots' `.gitignore` ignores.
    Ignored { roots: Vec<String> },
    /// A path `-`: the paths read from standard input, one per line.
    Stdin,
    /// The paths as given.
    Given(Vec<String>),
}

/// The roots of a search: the paths given, or `.` when none is.
pub open spec fn roots_or_here(paths: Seq<Seq<char>>) -> Seq<Seq<char>> {
    if paths.len() == 0 {
        seq![seq!['.']]
    } else {
        paths
    }
}

/// Whether some path is `-` (compared as paths are).
pub open spec fn names_stdin(paths: Seq<Seq<char>>) -> bool {
    exists|i: int| 0 <= i < paths.len() && components(#[trigger] paths[i]) == components(seq!['-'])
}

fn roots_of(paths: &Vec<String>) -> (r: Vec<String>)
    ensures
        strings_view(r@) == roots_or_here(strings_view(paths@)),
{
    if paths.len() == 0 {
        let mut here = String::new();
        crate::text::string_push(&mut here, '.');
        let mut r: Vec<String> = Vec::new();
        r.push(here);
        assert(strings_view(r@) =~= seq![seq!['.']]);
        r
    } else {
        let r = paths.clone();
        assert(strings_view(r@) =~= strings_view(paths@)) by {
            assert(r@ == paths@);
        }
        r
    }
}

/// Where the targets come from: `--match` first, then `--remove-ignore`,
/// then standard input when a path is `-`, else the paths given.
pub fn target_source(match_pattern: Option<String>, remove_ignore: bool, paths: &Vec<String>) -> (r: TargetSource)
    ensures
        match match_pattern {
            Some(p) => r matches TargetSource::Matching { pattern, roots } && pattern@ == p@
                && strings_view(roots@) == roots_or_here(strings_view(paths@)),
            None => if remove_ignore {
                r matches TargetSource::Ignored { roots } && strings_view(roots@) == roots_or_here(
                    strings_view(paths@),
                )
            } else if names_stdin(strings_view(paths@)) {
                r is Stdin
            } else {
                r matches TargetSource::Given(g) && strings_view(g@) == strings_view(paths@)
            },
        },
{
    match match_pattern {
        Some(p) => TargetSource::Matching { pattern: p, roots: roots_of(paths) },
        None => {
            if remove_ignore {
                return TargetSource::Ignored { roots: roots_of(paths) };
            }
            let ghost v = strings_view(paths@);
            let mut i: usize = 0;
            while i < paths.len()
                invariant
                    i <= paths.len(),
                    v == strings_view(paths@),
                    match_pattern is None,
                    !remove_ignore,
                    forall|j: int| 0 <= j < i ==> components(#[trigger] v[j]) != components(seq!['-']),
                decreases paths.len() - i,
            {
                let mut dash = String::new();
                crate::text::string_push(&mut dash, '-');
                assert(dash@ =~= seq!['-']);
                if same_path(paths[i].as_str(), dash.as_str()) {
                    assert(components(v[i as int]) == components(seq!['-']));
                    return TargetSource::Stdin;
                }
                i = i + 1;
            }
            let g = paths.clone();
            assert(g@ == paths@);
            TargetSource::Given(g)
        },
    }
}

/// The paths read from standard input: each line trimmed, empty lines left
/// out.
pub open spec fn line_paths(lines: Seq<Seq<char>>) -> Seq<Seq<char>> {
    lines.map_values(|l: Seq<char>| trim(l)).filter(|t: Seq<char>| t.len() > 0)
}

pub fn paths_from_lines(lines: &Vec<String>) -> (r: Vec<String>)
    ensures
        strings_view(r@) == line_paths(strings_view(lines@)),
{
    let ghost v = strings_view(lines@);
    let ghost f = |l: Seq<char>| trim(l);
    let ghost pred = |t: Seq<char>| t.len() > 0;
    let mut out: Vec<String> = Vec::new();
    let mut i: usize = 0;
    while i < lines.len()
        invariant
            i <= lines.len(),
            v == strings_view(lines@),
            f == (|l: Seq<char>| trim(l)),
            pred == (|t: Seq<char>| t.len() > 0),
            strings_view(out@) == v.take(i as int).map_values(f).filter(pred),
        decreases lines.len() - i,
    {
        let c = chars_of(lines[i].as_str());
        let (a, b) = trim_bounds(&c, 0, c.len());
        let ghost t = trim(v[i as int]);
        proof {
            assert(c@.subrange(0, c.len() as int) =~= c@);
            assert(v[i as int] == lines@[i as int]@);
            assert(v.take(i + 1).map_values(f) =~= v.take(i as int).map_values(f).push(t));
            v.take(i as int).map_values(f).lemma_filter_push(t, pred);
        }
        if a < b {
            let piece = crate::text::string_of_range(&c, a, b);
            out.push(piece);
            assert(strings_view(out@) =~= strings_view(out@.drop_last()).push(t));
        }
        i = i + 1;
    }
    assert(v.take(lines.len() as int) =~= v);
    out
}

/// Whether an answer to a `[y/N]` question says yes: `y` or `Y`, white
/// space around it aside.
pub open spec fn says_yes(answer: Seq<char>) -> bool {
    trim(answer) == seq!['y'] || trim(answer) == seq!['Y']
}

pub fn confirms(answer: &str) -> (r: bool)
    ensures
        r == says_yes(answer@),
{
    let c = chars_of(answer);
    let (a, b) = trim_bounds(&c, 0, c.len());
    assert(c@.subrange(0, c.len() as int) =~= c@);
    let r = b > a && b - a == 1 && (c[a] == 'y' || c[a] == 'Y');
    proof {
        let t = c@.subrange(a as int, b as int);
        if b == a + 1 {
            assert(t[0] == c@[a as int]);
            if c@[a as int] == 'y' {
                assert(t =~= seq!['y']);
            }
            if c@[a as int] == 'Y' {
                assert(t =~= seq!['Y']);
            }
        }
        if t == seq!['y'] || t == seq!['Y'] {
            assert(t.len() == 1);
            assert(t[0] == c@[a as int]);
        }
    }
    r
}

/// What is done to a target.
#[derive(Debug, Clone, Copy, PartialEq, Eq)]
pub enum RemovalStep {
    /// Nothing (a dry run).
    Skip,
    /// Overwritten with zeroes, then deleted.
    SecureDelete,
    /// Deleted.
    Delete,
    /// Moved to the trash.
    Trash,
}

pub open spec fn step_of(dry_run: bool, delete: bool, secure: bool) -> RemovalStep {
    if dry_run {
        RemovalStep::Skip
    } else if delete && secure {
        RemovalStep::SecureDelete
    } else if delete {
        RemovalStep::Delete
    } else {
        RemovalStep::Trash
    }
}

/// What is done to each target: nothing in a dry run, a secure or a plain
/// delete with `--delete` (and `--secure`), else a move to the trash.
pub fn removal_step(dry_run: bool, delete: bool, secure: bool) -> (r: RemovalStep)
    ensures
        r == step_of(dry_run, delete, secure),
{
    if dry_run {
        RemovalStep::Skip
    } else if delete && secure {
        RemovalStep::SecureDelete
    } else if delete {
        RemovalStep::Delete
    } else {
        RemovalStep::Trash
    }
}

/// A dry run touches nothing; without `--delete` a target only ever goes
/// to the trash, and it is deleted (securely with `--secure`) only with
/// `--delete`.
pub proof fn lemma_removal_step_kinds(dry_run: bool, delete: bool, secure: bool)
    ensures
        dry_run <==> step_of(dry_run, delete, secure) == RemovalStep::Skip,
        !dry_run && !delete ==> step_of(dry_run, delete, secure) == RemovalStep::Trash,
        step_of(dry_run, delete, secure) == RemovalStep::Delete ==> delete && !secure,
        step_of(dry_run, delete, secure) == RemovalStep::SecureDelete ==> delete && secure,
        step_of(dry_run, delete, secure) == RemovalStep::Trash ==> !delete,
        !dry_run && delete ==> (step_of(dry_run, delete, secure) == RemovalStep::Delete
            || step_of(dry_run, delete, secure) == RemovalStep::SecureDelete),
{
}

/// The verb of a removal: `delete` or `remove`.
pub open spec fn mode_word(delete: bool) -> Seq<char> {
    if delete {
        "delete"@
    } else {
        "remove"@
    }
}

/// The summary of a run: `removed 3 targets` when all went well; otherwise
/// `removed 2, 1 errors, 1 skipped / 4` (the counts that are not zero), which
/// is then followed by a `done` mark.
pub open spec fn summary_text(delete: bool, success: nat, errors: nat, skipped: nat, total: nat) -> Seq<char> {
    if errors == 0 && skipped == 0 {
        mode_word(delete) + "d "@ + decimal_text(success) + " targets"@
    } else {
        mode_word(delete) + "d "@ + decimal_text(success) + (if errors > 0 {
            ", "@ + decimal_text(errors) + " errors"@
        } else {
            Seq::empty()
        }) + (if skipped > 0 {
            ", "@ + decimal_text(skipped) + " skipped"@
        } else {
            Seq::empty()
        }) + " / "@ + decimal_text(total)
    }
}

/// The summary line of a run, and whether a `done` mark follows it.
pub fn removal_summary(delete: bool, success: u64, errors: u64, skipped: u64, total: u64) -> (r: (String, bool))
    ensures
        r.0@ == summary_text(delete, success as nat, errors as nat, skipped as nat, total as nat),
        r.1 == !(errors == 0 && skipped == 0),
{
    let mut out: Vec<char> = Vec::new();
    push_str(&mut out, if delete { "delete" } else { "remove" });
    push_str(&mut out, "d ");
    push_decimal(&mut out, success as u128);
    if errors == 0 && skipped == 0 {
        push_str(&mut out, " targets");
        return (string_of(&out), false);
    }
    let ghost head = out@;
    if errors > 0 {
        push_str(&mut out, ", ");
        push_decimal(&mut out, errors as u128);
        push_str(&mut out, " errors");
    }
    let ghost mid = out@;
    if skipped > 0 {
        push_str(&mut out, ", ");
        push_decimal(&mut out, skipped as u128);
        push_str(&mut out, " skipped");
    }
    let ghost tail = out@;
    push_str(&mut out, " / ");
    push_decimal(&mut out, total as u128);
    proof {
        let e = if errors > 0 {
            ", "@ + decimal_text(errors as nat) + " errors"@
        } else {
            Seq::<char>::empty()
        };
        let k = if skipped > 0 {
            ", "@ + decimal_text(skipped as nat) + " skipped"@
        } else {
            Seq::<char>::empty()
        };
        assert(mid =~= head + e);
        assert(tail =~= head + e + k);
        assert(out@ =~= summary_text(delete, success as nat, errors as nat, skipped as nat, total as nat));
    }
    (string_of(&out), true)
}

/// How `.env` files found among the targets are dealt with.
#[derive(Debug, Clone, Copy, PartialEq, Eq)]
pub enum EnvNotice {
    /// None were found.
    Nothing,
    /// `--force` was given: they are named in a warning and the work goes on.
    Warn,
    /// JSON output: a warning event is printed and the work goes on.
    Report,
    /// The user is asked whether to go on.
    Ask,
}

/// What the removal command does once its targets are known, before it
/// touches any of them.
#[derive(Debug, Clone, Copy, PartialEq, Eq)]
pub enum RemovalStart {
    /// One of the targets is the root directory: nothing is removed.
    RefuseRoot,
    /// There is nothing to remove.
    NoTargets,
    /// The work goes on; `env` says what is done about `.env` files, and
    /// `confirm_delete` whether to ask before deleting for good.
    Proceed { env: EnvNotice, confirm_delete: bool },
}

/// How the removal starts for targets of which `roots[i]` says whether the `i`-th is the
/// root directory, with `env_count` `.env` files among them: the root is
/// refused whatever the flags; `.env` files make the command ask unless
/// `--force`; deleting for good is confirmed first unless `--force`, a dry
/// run or JSON output.
pub open spec fn start_of(roots: Seq<bool>, env_count: nat, force: bool, delete: bool, dry_run: bool, json: bool) -> RemovalStart {
    if roots.contains(true) {
        RemovalStart::RefuseRoot
    } else if roots.len() == 0 {
        RemovalStart::NoTargets
    } else {
        RemovalStart::Proceed {
            env: if env_count == 0 {
                EnvNotice::Nothing
            } else if force {
                EnvNotice::Warn
            } else {
                EnvNotice::Ask
            },
            confirm_delete: delete && !force && !dry_run && !json,
        }
    }
}

/// How the removal command starts, before its first target (see
/// `start_of`). A root target is refused whatever else is asked.
pub fn removal_start(roots: &Vec<bool>, env_count: usize, force: bool, delete: bool, dry_run: bool, json: bool) -> (r: RemovalStart)
    ensures
        r == start_of(roots@, env_count as nat, force, delete, dry_run, json),
        roots@.contains(true) ==> r == RemovalStart::RefuseRoot,
{
    let mut i: usize = 0;
    while i < roots.len()
        invariant
            i <= roots.len(),
            forall|j: int| 0 <= j < i ==> !roots@[j],
        decreases roots.len() - i,
    {
        if roots[i] {
            return RemovalStart::RefuseRoot;
        }
        i = i + 1;
    }
    if roots.len() == 0 {
        return RemovalStart::NoTargets;
    }
    let env = if env_count == 0 {
        EnvNotice::Nothing
    } else if force {
        EnvNotice::Warn
    } else {
        EnvNotice::Ask
    };
    RemovalStart::Proceed { env, confirm_delete: delete && !force && !dry_run && !json }
}

/// Whether the trash is cleaned by its configuration after a run: only
/// after targets were moved to the trash, for real, without an error.
pub open spec fn auto_clean_follows(delete: bool, dry_run: bool, errors: nat) -> bool {
    !delete && !dry_run && errors == 0
}

/// Whether the trash is cleaned by its configuration after a run (see
/// `auto_clean_follows`).
pub fn auto_clean_due(delete: bool, dry_run: bool, errors: usize) -> (r: bool)
    ensures
        r == auto_clean_follows(delete, dry_run, errors as nat),
{
    !delete && !dry_run && errors == 0
}

/// What cleaning the trash does once its candidates are known.
#[derive(Debug, Clone, Copy, PartialEq, Eq)]
pub enum CleanStart {
    /// No entry is to be removed.
    NothingToClean,
    /// The entries are removed, after asking when `confirm` holds.
    Proceed { confirm: bool },
}

/// How cleaning `candidates` trash entries starts: asking first unless a
/// dry run, `--force` or JSON output.
pub open spec fn clean_start_of(candidates: nat, dry_run: bool, force: bool, json: bool) -> CleanStart {
    if candidates == 0 {
        CleanStart::NothingToClean
    } else {
        CleanStart::Proceed { confirm: !dry_run && !force && !json }
    }
}

/// How cleaning the trash starts (see `clean_start_of`).
pub fn clean_start(candidates: usize, dry_run: bool, force: bool, json: bool) -> (r: CleanStart)
    ensures
        r == clean_start_of(candidates as nat, dry_run, force, json),
{
    if candidates == 0 {
        CleanStart::NothingToClean
    } else {
        CleanStart::Proceed { confirm: !dry_run && !force && !json }
    }
}


/// How the clean-up goes on once it may proceed.
#[derive(Debug, Clone, Copy, PartialEq, Eq)]
pub enum CleanPass {
    /// A dry run: the candidates found are reported, and nothing is removed.
    Report,
    /// The trash is listed again, and what the same limits select is removed.
    Remove,
}

/// How the clean-up goes on: a dry run only reports.
pub fn clean_pass(dry_run: bool) -> (r: CleanPass)
    ensures
        r == (if dry_run {
            CleanPass::Report
        } else {
            CleanPass::Remove
        }),
{
    if dry_run {
        CleanPass::Report
    } else {
        CleanPass::Remove
    }
}

// ── per-target status ───────────────────────────────────────────
/// How a target fared.
#[derive(Debug, Clone, Copy, PartialEq, Eq)]
pub enum TargetStatus {
    Done,
    Skipped,
    Failed,
}

/// Where the status of a target goes.
#[derive(Debug, Clone, Copy, PartialEq, Eq)]
pub enum StatusOutput {
    /// A JSON event.
    Json,
    /// A line on the terminal.
    Line,
    /// Nowhere.
    Quiet,
}

/// A target's status is a JSON event with `--json`; otherwise a line when
/// `--verbose` asks for one or the target failed.
pub open spec fn status_output_of(json: bool, verbose: bool, status: TargetStatus) -> StatusOutput {
    if json {
        StatusOutput::Json
    } else if verbose || status == TargetStatus::Failed {
        StatusOutput::Line
    } else {
        StatusOutput::Quiet
    }
}

/// Where the status of a target goes (see `status_output_of`).
pub fn status_output(json: bool, verbose: bool, status: TargetStatus) -> (r: StatusOutput)
    ensures
        r == status_output_of(json, verbose, status),
{
    if json {
        StatusOutput::Json
    } else if verbose || matches!(status, TargetStatus::Failed) {
        StatusOutput::Line
    } else {
        StatusOutput::Quiet
    }
}

/// What a status line says after the target: nothing for a target that is
/// done; otherwise the message, or `skipped` or `unknown error` when there
/// is none.
pub open spec fn status_detail_of(status: TargetStatus, message: Option<Seq<char>>) -> Option<Seq<char>> {
    match status {
        TargetStatus::Done => None,
        TargetStatus::Skipped => Some(
            match message {
                Some(m) => m,
                None => "skipped"@,
            },
        ),
        TargetStatus::Failed => Some(
            match message {
                Some(m) => m,
                None => "unknown error"@,
            },
        ),
    }
}

/// What a status line says after the target (see `status_detail_of`).
pub fn status_detail(status: TargetStatus, message: Option<&str>) -> (r: Option<String>)
    ensures
        opt_view(r) == status_detail_of(status, match message {
            Some(m) => Some(m@),
            None => None,
        }),
{
    match status {
        TargetStatus::Done => None,
        TargetStatus::Skipped => match message {
            Some(m) => Some(m.to_owned()),
            None => {
                proof {
                    reveal_strlit("skipped");
                }
                Some("skipped".to_owned())
            },
        },
        TargetStatus::Failed => match message {
            Some(m) => Some(m.to_owned()),
            None => {
                proof {
                    reveal_strlit("unknown error");
                }
                Some("unknown error".to_owned())
            },
        },
    }
}

// ── restoring ───────────────────────────────────────────────────
/// The directory to make, where it is missing, before an entry goes back to
/// `original`: its parent, unless it has none or the parent is empty.
pub open spec fn parent_to_make_of(original: Seq<char>) -> Option<Seq<char>> {
    match parent_of(original) {
        Some(p) => if p.len() > 0 {
            Some(p)
        } else {
            None
        },
        None => None,
    }
}

/// The directory to make before an entry goes back (see `parent_to_make_of`).
pub fn parent_to_make(original: &str) -> (r: Option<String>)
    ensures
        opt_view(r) == parent_to_make_of(original@),
{
    match parent_path(original) {
        Some(p) => {
            if chars_of(p.as_str()).len() > 0 {
                Some(p)
            } else {
                None
            }
        },
        None => None,
    }
}

/// Why an entry is not put back: the error of making its parent directory,
/// after `mkdir: `; else `target exists, skipping` when something stands at
/// its original place; `None` when it can be moved back.
pub open spec fn restore_refusal_of(mkdir_error: Option<Seq<char>>, target_exists: bool) -> Option<Seq<char>> {
    match mkdir_error {
        Some(e) => Some("mkdir: "@ + e),
        None => if target_exists {
            Some("target exists, skipping"@)
        } else {
            None
        },
    }
}

/// Why an entry is not put back (see `restore_refusal_of`).
pub fn restore_refusal(mkdir_error: Option<String>, target_exists: bool) -> (r: Option<String>)
    ensures
        opt_view(r) == restore_refusal_of(opt_view(mkdir_error), target_exists),
{
    match mkdir_error {
        Some(e) => {
            let mut out: Vec<char> = Vec::new();
            push_str(&mut out, "mkdir: ");
            push_str(&mut out, e.as_str());
            proof {
                reveal_strlit("mkdir: ");
            }
            Some(string_of(&out))
        },
        None => if target_exists {
            proof {
                reveal_strlit("target exists, skipping");
            }
            Some("target exists, skipping".to_owned())
        } else {
            None
        },
    }
}

/// How many entries went back, and how many did not.
pub open spec fn restore_counts(results: Seq<(TrashEntry, Result<(), String>)>) -> (nat, nat)
    decreases results.len(),
{
    if results.len() == 0 {
        (0, 0)
    } else {
        let (ok, failed) = restore_counts(results.drop_last());
        if results.last().1 is Ok {
            (ok + 1, failed)
        } else {
            (ok, failed + 1)
        }
    }
}

/// How a restore ends.
#[derive(Debug, Clone, Copy, PartialEq, Eq)]
pub enum RestoreEnd {
    /// Some entry could not go back: the run fails.
    Failed,
    /// No entry matched: a warning says so.
    NothingRestored,
    /// Every matching entry went back.
    Done,
}

pub open spec fn restore_end_of(restored: nat, failed: nat) -> RestoreEnd {
    if failed > 0 {
        RestoreEnd::Failed
    } else if restored == 0 {
        RestoreEnd::NothingRestored
    } else {
        RestoreEnd::Done
    }
}

/// The counts of a restore's results (see `restore_counts`) and how it ends
/// (see `restore_end_of`).
pub fn restore_end(results: &Vec<(TrashEntry, Result<(), String>)>) -> (r: (usize, usize, RestoreEnd))
    ensures
        (r.0 as nat, r.1 as nat) == restore_counts(results@),
        r.2 == restore_end_of(r.0 as nat, r.1 as nat),
{
    let mut ok: usize = 0;
    let mut failed: usize = 0;
    let mut i: usize = 0;
    proof {
        assert(results@.take(0) =~= Seq::<(TrashEntry, Result<(), String>)>::empty());
    }
    while i < results.len()
        invariant
            i <= results.len(),
            ok + failed == i,
            (ok as nat, failed as nat) == restore_counts(results@.take(i as int)),
        decreases results.len() - i,
    {
        proof {
            assert(results@.take(i + 1).drop_last() =~= results@.take(i as int));
            assert(results@.take(i + 1).last() == results@[i as int]);
        }
        if results[i].1.is_ok() {
            ok = ok + 1;
        } else {
            failed = failed + 1;
        }
        i = i + 1;
    }
    proof {
        assert(results@.take(results.len() as int) =~= results@);
    }
    let end = if failed > 0 {
        RestoreEnd::Failed
    } else if ok == 0 {
        RestoreEnd::NothingRestored
    } else {
        RestoreEnd::Done
    };
    (ok, failed, end)
}

} // verus!
