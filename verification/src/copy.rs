//! Copying files: what a copy refuses to start on, where each file goes, and
//! the order in which a directory's entries are taken.
use crate::paths::{
    file_name_of, lemma_text_total, lemma_text_transitive, strip_path_prefix, strip_prefix_of,
    text_before, text_rank, Rank,
};
use crate::removal::EnvNotice;
use crate::text::{chars_of, push_str, string_of};
use crate::trash::{joined, path_join, strings_view};
use vstd::prelude::*;

verus! {

/// Why a copy does not start.
#[derive(Debug, Clone, Copy, PartialEq, Eq)]
pub enum CopyRefusal {
    /// The source does not exist.
    MissingSource,
    /// The source holds no file.
    NothingToCopy,
    /// Source and destination are the same file.
    SameFile,
    /// A file would be copied over an existing file without `--force`.
    DestinationExists,
}

/// The first check a copy fails, in the order they are made, or `None`. A
/// copy is refused as onto the same file when the destination is the
/// source, or when any file would be copied onto itself (`same_targets`).
pub open spec fn refusal_of(
    source_exists: bool,
    file_count: nat,
    same_file: bool,
    same_targets: Seq<bool>,
    is_dir: bool,
    dest_exists: bool,
    dest_is_dir: bool,
    force: bool,
) -> Option<CopyRefusal> {
    if !source_exists {
        Some(CopyRefusal::MissingSource)
    } else if file_count == 0 {
        Some(CopyRefusal::NothingToCopy)
    } else if same_file || same_targets.contains(true) {
        Some(CopyRefusal::SameFile)
    } else if !is_dir && dest_exists && !dest_is_dir && !force {
        Some(CopyRefusal::DestinationExists)
    } else {
        None
    }
}

/// What each refusal of a copy rests on: a missing source, an empty one,
/// a file that would be copied onto itself, or an existing destination file
/// without `--force` (when a single file is copied onto a file). A source
/// that exists, holds files and is copied onto no file of its own, to a
/// destination that is missing, a directory, or overwritten with `--force`,
/// is copied.
pub proof fn lemma_copy_refusal_reasons(
    source_exists: bool,
    file_count: nat,
    same_file: bool,
    same_targets: Seq<bool>,
    is_dir: bool,
    dest_exists: bool,
    dest_is_dir: bool,
    force: bool,
)
    ensures
        ({
            let r = refusal_of(source_exists, file_count, same_file, same_targets, is_dir, dest_exists, dest_is_dir, force);
            &&& (r == Some(CopyRefusal::MissingSource) <==> !source_exists)
            &&& (r == Some(CopyRefusal::NothingToCopy) ==> file_count == 0)
            &&& (r == Some(CopyRefusal::SameFile) ==> same_file || same_targets.contains(true))
            &&& (r == Some(CopyRefusal::DestinationExists) ==> dest_exists && !dest_is_dir && !is_dir && !force)
            &&& (source_exists && file_count > 0 && !same_file && !same_targets.contains(true) && (!dest_exists
                || dest_is_dir || is_dir || force) ==> r is None)
            &&& (source_exists && file_count > 0 && !same_file && !same_targets.contains(true) && dest_exists
                && !dest_is_dir && !is_dir && !force ==> r == Some(CopyRefusal::DestinationExists))
        }),
{
}

/// Whether a copy may start: `source_exists`, how many files the source
/// holds, whether source and destination are the same file, for each file
/// whether its target is that same file, whether the source is a
/// directory, whether the destination exists and is a directory, and
/// `--force`.
pub fn copy_refusal(
    source_exists: bool,
    file_count: usize,
    same_file: bool,
    same_targets: &Vec<bool>,
    is_dir: bool,
    dest_exists: bool,
    dest_is_dir: bool,
    force: bool,
) -> (r: Option<CopyRefusal>)
    ensures
        r == refusal_of(source_exists, file_count as nat, same_file, same_targets@, is_dir, dest_exists, dest_is_dir, force),
{
    let mut any_same = false;
    let mut i: usize = 0;
    while i < same_targets.len()
        invariant
            i <= same_targets.len(),
            any_same == (exists|j: int| 0 <= j < i && #[trigger] same_targets@[j]),
        decreases same_targets.len() - i,
    {
        any_same = any_same || same_targets[i];
        i = i + 1;
    }
    proof {
        if any_same {
            let j = choose|j: int| 0 <= j < same_targets.len() && #[trigger] same_targets@[j];
            assert(same_targets@[j] == true);
        }
        if same_targets@.contains(true) {
            let j = choose|j: int| 0 <= j < same_targets@.len() && #[trigger] same_targets@[j] == true;
            assert(same_targets@[j]);
        }
    }
    if !source_exists {
        Some(CopyRefusal::MissingSource)
    } else if file_count == 0 {
        Some(CopyRefusal::NothingToCopy)
    } else if same_file || any_same {
        Some(CopyRefusal::SameFile)
    } else if !is_dir && dest_exists && !dest_is_dir && !force {
        Some(CopyRefusal::DestinationExists)
    } else {
        None
    }
}

/// The message for a refusal.
pub open spec fn refusal_text(r: CopyRefusal, source: Seq<char>, dest: Seq<char>) -> Seq<char> {
    match r {
        CopyRefusal::MissingSource => "source '"@ + source + "' does not exist"@,
        CopyRefusal::NothingToCopy => "no files to copy"@,
        CopyRefusal::SameFile => "'"@ + source + "' and '"@ + dest + "' are the same file"@,
        CopyRefusal::DestinationExists => "destination '"@ + dest + "' already exists; use -f to overwrite"@,
    }
}

pub fn refusal_message(r: CopyRefusal, source: &str, dest: &str) -> (m: String)
    ensures
        m@ == refusal_text(r, source@, dest@),
{
    let mut out: Vec<char> = Vec::new();
    match r {
        CopyRefusal::MissingSource => {
            push_str(&mut out, "source '");
            push_str(&mut out, source);
            push_str(&mut out, "' does not exist");
        },
        CopyRefusal::NothingToCopy => {
            push_str(&mut out, "no files to copy");
        },
        CopyRefusal::SameFile => {
            push_str(&mut out, "'");
            push_str(&mut out, source);
            push_str(&mut out, "' and '");
            push_str(&mut out, dest);
            push_str(&mut out, "' are the same file");
        },
        CopyRefusal::DestinationExists => {
            push_str(&mut out, "destination '");
            push_str(&mut out, dest);
            push_str(&mut out, "' already exists; use -f to overwrite");
        },
    }
    string_of(&out)
}

/// The sum of the file sizes.
pub open spec fn bytes_total(files: Seq<(String, u64)>) -> nat
    decreases files.len(),
{
    if files.len() == 0 {
        0
    } else {
        bytes_total(files.drop_last()) + files.last().1 as nat
    }
}

proof fn lemma_bytes_total_prefix(s: Seq<(String, u64)>, k: nat)
    requires
        k <= s.len(),
    ensures
        bytes_total(s.take(k as int)) <= bytes_total(s),
    decreases s.len(),
{
    if k < s.len() {
        lemma_bytes_total_prefix(s.drop_last(), k);
        assert(s.drop_last().take(k as int) =~= s.take(k as int));
    } else {
        assert(s.take(k as int) =~= s);
    }
}

/// How many bytes a copy moves.
pub fn total_bytes(files: &Vec<(String, u64)>) -> (r: u64)
    requires
        bytes_total(files@) <= u64::MAX,
    ensures
        r == bytes_total(files@),
{
    let mut t: u64 = 0;
    let mut i: usize = 0;
    while i < files.len()
        invariant
            i <= files.len(),
            t == bytes_total(files@.take(i as int)),
            bytes_total(files@) <= u64::MAX,
        decreases files.len() - i,
    {
        proof {
            assert(files@.take(i + 1).drop_last() =~= files@.take(i as int));
            lemma_bytes_total_prefix(files@, (i + 1) as nat);
        }
        t = t + files[i].1;
        i = i + 1;
    }
    assert(files@.take(files.len() as int) =~= files@);
    t
}

/// A file's path relative to the source: what follows the source's
/// components, or the whole path when the source does not begin it.
pub open spec fn relative_of(file: Seq<char>, source: Seq<char>) -> Seq<char> {
    match strip_prefix_of(file, source) {
        Some(r) => r,
        None => file,
    }
}

/// Where a file goes: below the destination at its place relative to the
/// source, when the source is a directory; into the destination under its
/// own name, when the destination is a directory; else the destination.
pub open spec fn target_of(
    file: Seq<char>,
    source: Seq<char>,
    dest: Seq<char>,
    is_dir: bool,
    dest_is_dir: bool,
) -> Seq<char> {
    if is_dir {
        joined(dest, relative_of(file, source))
    } else if dest_is_dir {
        joined(
            dest,
            match file_name_of(file) {
                Some(n) => n,
                None => Seq::empty(),
            },
        )
    } else {
        dest
    }
}

/// One file of a copy: where it is read, where it is written, and how it is
/// shown (its path relative to the source).
#[derive(Debug, Clone)]
pub struct CopyTarget {
    pub from: String,
    pub to: String,
    pub display: String,
}

/// Where each file of a copy from `source` to `dest` goes, in order.
pub fn copy_targets(
    source: &str,
    dest: &str,
    is_dir: bool,
    dest_is_dir: bool,
    files: &Vec<(String, u64)>,
) -> (r: Vec<CopyTarget>)
    ensures
        r@.len() == files@.len(),
        forall|i: int|
            0 <= i < files@.len() ==> {
                &&& (#[trigger] r@[i]).from@ == files@[i].0@
                &&& r@[i].to@ == target_of(files@[i].0@, source@, dest@, is_dir, dest_is_dir)
                &&& r@[i].display@ == relative_of(files@[i].0@, source@)
            },
{
    let mut out: Vec<CopyTarget> = Vec::new();
    let mut i: usize = 0;
    while i < files.len()
        invariant
            i <= files.len(),
            out@.len() == i,
            forall|k: int|
                0 <= k < i ==> {
                    &&& (#[trigger] out@[k]).from@ == files@[k].0@
                    &&& out@[k].to@ == target_of(files@[k].0@, source@, dest@, is_dir, dest_is_dir)
                    &&& out@[k].display@ == relative_of(files@[k].0@, source@)
                },
        decreases files.len() - i,
    {
        let file = files[i].0.as_str();
        let relative = match strip_path_prefix(file, source) {
            Some(r) => r,
            None => file.to_owned(),
        };
        let to = if is_dir {
            path_join(dest, relative.as_str())
        } else if dest_is_dir {
            let name = match crate::paths::file_name(file) {
                Some(n) => n,
                None => String::new(),
            };
            path_join(dest, name.as_str())
        } else {
            dest.to_owned()
        };
        out.push(CopyTarget { from: file.to_owned(), to, display: relative });
        i = i + 1;
    }
    out
}

// ── the order of a directory's entries ──────────────────────────
/// Names in the order of their text, equal names keeping their order.
pub open spec fn names_sorted(s: Seq<Seq<char>>) -> bool {
    forall|i: int, j: int| 0 <= i < j < s.len() ==> !text_before(#[trigger] s[j], #[trigger] s[i])
}

proof fn lemma_insert_name(s: Seq<Seq<char>>, x: Seq<char>, k: int)
    requires
        names_sorted(s),
        0 <= k <= s.len(),
        forall|t: int| 0 <= t < k ==> !text_before(x, #[trigger] s[t]),
        k < s.len() ==> text_before(x, s[k]),
    ensures
        names_sorted(s.insert(k, x)),
{
    let q = s.insert(k, x);
    assert forall|i: int, j: int| 0 <= i < j < q.len() implies !text_before(#[trigger] q[j], #[trigger] q[i]) by {
        if j < k {
            assert(q[i] == s[i] && q[j] == s[j]);
        } else if j == k {
            assert(q[i] == s[i] && q[j] == x);
        } else if i < k {
            assert(q[i] == s[i] && q[j] == s[j - 1]);
            // s[i] <= x < s[k] <= s[j - 1]
            lemma_text_total(x, s[i]);
            lemma_text_total(s[k], s[j - 1]);
            lemma_text_total(s[i], s[k]);
            if s[j - 1] != s[k] {
                lemma_text_transitive(x, s[k], s[j - 1]);
            }
            if text_before(s[j - 1], s[i]) {
                if x == s[i] {
                    lemma_text_total(s[j - 1], x);
                } else {
                    lemma_text_transitive(s[j - 1], s[i], x);
                    lemma_text_total(s[j - 1], x);
                }
            }
        } else if i == k {
            assert(q[i] == x && q[j] == s[j - 1]);
            lemma_text_total(s[k], s[j - 1]);
            if s[j - 1] != s[k] {
                lemma_text_transitive(x, s[k], s[j - 1]);
            }
            lemma_text_total(x, s[j - 1]);
        } else {
            assert(q[i] == s[i - 1] && q[j] == s[j - 1]);
        }
    }
}

/// Sorts names in the order of their text (the order of their UTF-8
/// bytes), keeping equal names in their order.
pub fn sort_names(names: Vec<String>) -> (r: Vec<String>)
    ensures
        names_sorted(strings_view(r@)),
        strings_view(r@).to_multiset() == strings_view(names@).to_multiset(),
{
    let ghost v = strings_view(names@);
    let mut out: Vec<String> = Vec::new();
    let mut keys: Vec<Vec<char>> = Vec::new();
    let mut i: usize = 0;
    proof {
        assert(strings_view(out@) =~= v.take(0));
    }
    while i < names.len()
        invariant
            i <= names.len(),
            v == strings_view(names@),
            out.len() == keys.len(),
            forall|t: int| 0 <= t < keys.len() ==> (#[trigger] keys@[t])@ == out@[t]@,
            names_sorted(strings_view(out@)),
            strings_view(out@).to_multiset() == v.take(i as int).to_multiset(),
        decreases names.len() - i,
    {
        let key = chars_of(names[i].as_str());
        let ghost sv = strings_view(out@);
        let mut k: usize = 0;
        let mut go = true;
        while go && k < out.len()
            invariant
                k <= out.len(),
                out.len() == keys.len(),
                sv == strings_view(out@),
                key@ == v[i as int],
                forall|t: int| 0 <= t < keys.len() ==> (#[trigger] keys@[t])@ == out@[t]@,
                forall|t: int| 0 <= t < k ==> !text_before(v[i as int], #[trigger] sv[t]),
                !go ==> k < out.len() && text_before(v[i as int], sv[k as int]),
            decreases out.len() - k + (if go { 1int } else { 0int }),
        {
            assert(keys@[k as int]@ == sv[k as int]);
            match text_rank(&key, &keys[k]) {
                Rank::Before => {
                    go = false;
                },
                _ => {
                    k = k + 1;
                },
            }
        }
        proof {
            lemma_insert_name(sv, v[i as int], k as int);
        }
        let ghost old_keys = keys@;
        out.insert(k, names[i].clone());
        keys.insert(k, key);
        proof {
            assert(strings_view(out@) =~= sv.insert(k as int, v[i as int]));
            assert forall|t: int| 0 <= t < keys.len() implies (#[trigger] keys@[t])@ == out@[t]@ by {
                if t > k {
                    assert(keys@[t] == old_keys[t - 1]);
                }
            }
            assert(v.take(i + 1) =~= v.take(i as int).push(v[i as int]));
            vstd::seq_lib::to_multiset_build(v.take(i as int), v[i as int]);
            let q = sv.insert(k as int, v[i as int]);
            assert(q =~= sv.take(k as int) + seq![v[i as int]] + sv.skip(k as int));
            vstd::seq_lib::lemma_multiset_commutative(sv.take(k as int) + seq![v[i as int]], sv.skip(k as int));
            vstd::seq_lib::lemma_multiset_commutative(sv.take(k as int), seq![v[i as int]]);
            vstd::seq_lib::lemma_multiset_commutative(sv.take(k as int), sv.skip(k as int));
            assert(sv.take(k as int) + sv.skip(k as int) =~= sv);
            assert(seq![v[i as int]] =~= Seq::<Seq<char>>::empty().push(v[i as int]));
            vstd::seq_lib::to_multiset_build(Seq::<Seq<char>>::empty(), v[i as int]);
            assert(q.to_multiset() =~= sv.to_multiset().insert(v[i as int])) by {
                broadcast use vstd::multiset::group_multiset_axioms;
                broadcast use vstd::seq_lib::group_to_multiset_ensures;
            }
        }
        i = i + 1;
    }
    assert(v.take(names.len() as int) =~= v);
    out
}

/// What a copy does about `.env` files among its sources: nothing when there
/// are none; with `--force` a warning; with JSON output a warning event;
/// otherwise it asks.
pub open spec fn copy_env_of(env_count: nat, force: bool, json: bool) -> EnvNotice {
    if env_count == 0 {
        EnvNotice::Nothing
    } else if force {
        EnvNotice::Warn
    } else if json {
        EnvNotice::Report
    } else {
        EnvNotice::Ask
    }
}

/// What a copy does about `env_count` `.env` files among its sources (see
/// `copy_env_of`).
pub fn copy_env_notice(env_count: usize, force: bool, json: bool) -> (r: EnvNotice)
    ensures
        r == copy_env_of(env_count as nat, force, json),
{
    if env_count == 0 {
        EnvNotice::Nothing
    } else if force {
        EnvNotice::Warn
    } else if json {
        EnvNotice::Report
    } else {
        EnvNotice::Ask
    }
}

} // verus!
