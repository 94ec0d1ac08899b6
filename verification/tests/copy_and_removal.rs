use neoutils::copy::{
    copy_env_notice, copy_refusal, copy_targets, refusal_message, sort_names, total_bytes, CopyRefusal,
};
use neoutils::removal::{
    clean_pass, parent_to_make, restore_end, restore_refusal, status_detail, status_output, CleanPass,
    RestoreEnd, StatusOutput, TargetStatus,
};
use neoutils::trash::TrashEntry;
use neoutils::removal::{
    auto_clean_due, clean_start, confirms, paths_from_lines, removal_start, removal_step, removal_summary,
    target_source, CleanStart, EnvNotice, RemovalStart, RemovalStep, TargetSource,
};

fn strs(v: &[&str]) -> Vec<String> {
    v.iter().map(|s| s.to_string()).collect()
}

#[test]
fn copy_checks_in_order() {
    assert_eq!(copy_refusal(false, 0, true, &vec![], false, true, false, false), Some(CopyRefusal::MissingSource));
    assert_eq!(copy_refusal(true, 0, true, &vec![], true, false, false, false), Some(CopyRefusal::NothingToCopy));
    assert_eq!(copy_refusal(true, 3, true, &vec![], true, false, false, false), Some(CopyRefusal::SameFile));
    assert_eq!(copy_refusal(true, 1, false, &vec![], false, true, false, false), Some(CopyRefusal::DestinationExists));
    assert_eq!(copy_refusal(true, 1, false, &vec![], false, true, false, true), None);
    assert_eq!(copy_refusal(true, 1, false, &vec![], false, true, true, false), None);
    assert_eq!(copy_refusal(true, 5, false, &vec![], true, true, false, false), None);
    assert_eq!(copy_refusal(true, 2, false, &vec![false, true], false, true, true, true), Some(CopyRefusal::SameFile));
    assert_eq!(copy_refusal(true, 2, false, &vec![false, false], false, true, true, true), None);
}

#[test]
fn copy_refusal_messages() {
    assert_eq!(refusal_message(CopyRefusal::MissingSource, "a", "b"), "source 'a' does not exist");
    assert_eq!(refusal_message(CopyRefusal::NothingToCopy, "a", "b"), "no files to copy");
    assert_eq!(refusal_message(CopyRefusal::SameFile, "a", "b"), "'a' and 'b' are the same file");
    assert_eq!(
        refusal_message(CopyRefusal::DestinationExists, "a", "b"),
        "destination 'b' already exists; use -f to overwrite"
    );
}

#[test]
fn where_files_go() {
    let files = vec![("src/a.txt".to_string(), 3u64), ("src/sub/b.txt".to_string(), 4u64)];
    let t = copy_targets("src", "out", true, false, &files);
    assert_eq!(t.len(), 2);
    assert_eq!((t[0].from.as_str(), t[0].to.as_str(), t[0].display.as_str()), ("src/a.txt", "out/a.txt", "a.txt"));
    assert_eq!((t[1].from.as_str(), t[1].to.as_str(), t[1].display.as_str()), ("src/sub/b.txt", "out/sub/b.txt", "sub/b.txt"));
    let one = vec![("notes/x.md".to_string(), 9u64)];
    let t = copy_targets("notes/x.md", "backup", false, true, &one);
    assert_eq!((t[0].to.as_str(), t[0].display.as_str()), ("backup/x.md", ""));
    let t = copy_targets("notes/x.md", "y.md", false, false, &one);
    assert_eq!(t[0].to, "y.md");
    assert_eq!(total_bytes(&files), 7);
    assert_eq!(total_bytes(&vec![]), 0);
}

#[test]
fn directory_entries_in_name_order() {
    assert_eq!(sort_names(strs(&["b", "a", "C", "é", "a"])), strs(&["C", "a", "a", "b", "é"]));
    assert_eq!(sort_names(vec![]), Vec::<String>::new());
}

#[test]
fn where_targets_come_from() {
    match target_source(Some("*.log".to_string()), true, &vec![]) {
        TargetSource::Matching { pattern, roots } => {
            assert_eq!(pattern, "*.log");
            assert_eq!(roots, strs(&["."]));
        }
        other => panic!("unexpected {:?}", other),
    }
    match target_source(None, true, &strs(&["a", "b"])) {
        TargetSource::Ignored { roots } => assert_eq!(roots, strs(&["a", "b"])),
        other => panic!("unexpected {:?}", other),
    }
    assert!(matches!(target_source(None, false, &strs(&["a", "-"])), TargetSource::Stdin));
    assert!(matches!(target_source(None, false, &strs(&["-/"])), TargetSource::Stdin));
    match target_source(None, false, &strs(&["a", "./-"])) {
        TargetSource::Given(g) => assert_eq!(g, strs(&["a", "./-"])),
        other => panic!("unexpected {:?}", other),
    }
}

#[test]
fn paths_read_from_lines() {
    assert_eq!(paths_from_lines(&strs(&["  a.txt ", "", "   ", "b/c\t"])), strs(&["a.txt", "b/c"]));
}

#[test]
fn confirmation_answers() {
    assert!(confirms("y\n"));
    assert!(confirms("  Y "));
    assert!(!confirms("yes"));
    assert!(!confirms(""));
    assert!(!confirms("n"));
}

#[test]
fn what_is_done_to_a_target() {
    assert_eq!(removal_step(true, true, true), RemovalStep::Skip);
    assert_eq!(removal_step(false, true, true), RemovalStep::SecureDelete);
    assert_eq!(removal_step(false, true, false), RemovalStep::Delete);
    assert_eq!(removal_step(false, false, true), RemovalStep::Trash);
}

#[test]
fn run_summaries() {
    assert_eq!(removal_summary(false, 3, 0, 0, 3), ("removed 3 targets".to_string(), false));
    assert_eq!(removal_summary(true, 2, 1, 1, 4), ("deleted 2, 1 errors, 1 skipped / 4".to_string(), true));
    assert_eq!(removal_summary(false, 0, 0, 2, 2), ("removed 0, 2 skipped / 2".to_string(), true));
}

#[test]
fn the_root_is_refused_whatever_the_flags() {
    for &force in &[false, true] {
        for &delete in &[false, true] {
            assert_eq!(removal_start(&vec![false, true], 0, force, delete, false, false), RemovalStart::RefuseRoot);
            assert_eq!(removal_start(&vec![true], 3, force, delete, true, true), RemovalStart::RefuseRoot);
        }
    }
}

#[test]
fn removal_starts() {
    assert_eq!(removal_start(&vec![], 0, false, false, false, false), RemovalStart::NoTargets);
    assert_eq!(
        removal_start(&vec![false], 0, false, true, false, false),
        RemovalStart::Proceed { env: EnvNotice::Nothing, confirm_delete: true }
    );
    assert_eq!(
        removal_start(&vec![false], 2, true, true, false, false),
        RemovalStart::Proceed { env: EnvNotice::Warn, confirm_delete: false }
    );
    assert_eq!(
        removal_start(&vec![false, false], 1, false, true, true, false),
        RemovalStart::Proceed { env: EnvNotice::Ask, confirm_delete: false }
    );
    assert_eq!(
        removal_start(&vec![false], 0, false, true, false, true),
        RemovalStart::Proceed { env: EnvNotice::Nothing, confirm_delete: false }
    );
    assert_eq!(
        removal_start(&vec![false], 0, false, false, false, false),
        RemovalStart::Proceed { env: EnvNotice::Nothing, confirm_delete: false }
    );
}

#[test]
fn how_cleaning_and_copying_start() {
    assert_eq!(clean_start(0, false, false, false), CleanStart::NothingToClean);
    assert_eq!(clean_start(3, false, false, false), CleanStart::Proceed { confirm: true });
    assert_eq!(clean_start(3, true, false, false), CleanStart::Proceed { confirm: false });
    assert_eq!(clean_start(3, false, true, false), CleanStart::Proceed { confirm: false });
    assert_eq!(clean_start(3, false, false, true), CleanStart::Proceed { confirm: false });
    assert!(auto_clean_due(false, false, 0));
    assert!(!auto_clean_due(true, false, 0));
    assert!(!auto_clean_due(false, true, 0));
    assert!(!auto_clean_due(false, false, 1));
    assert_eq!(copy_env_notice(0, false, false), EnvNotice::Nothing);
    assert_eq!(copy_env_notice(1, true, true), EnvNotice::Warn);
    assert_eq!(copy_env_notice(1, false, true), EnvNotice::Report);
    assert_eq!(copy_env_notice(2, false, false), EnvNotice::Ask);
}

#[test]
fn a_dry_run_clean_only_reports() {
    assert_eq!(clean_pass(true), CleanPass::Report);
    assert_eq!(clean_pass(false), CleanPass::Remove);
}

#[test]
fn target_status_lines() {
    assert_eq!(status_output(true, false, TargetStatus::Done), StatusOutput::Json);
    assert_eq!(status_output(false, false, TargetStatus::Done), StatusOutput::Quiet);
    assert_eq!(status_output(false, false, TargetStatus::Skipped), StatusOutput::Quiet);
    assert_eq!(status_output(false, false, TargetStatus::Failed), StatusOutput::Line);
    assert_eq!(status_output(false, true, TargetStatus::Skipped), StatusOutput::Line);
    assert_eq!(status_detail(TargetStatus::Done, Some("x")), None);
    assert_eq!(status_detail(TargetStatus::Skipped, None), Some("skipped".to_string()));
    assert_eq!(status_detail(TargetStatus::Skipped, Some("dry-run")), Some("dry-run".to_string()));
    assert_eq!(status_detail(TargetStatus::Failed, None), Some("unknown error".to_string()));
}

fn trashed(path: &str) -> TrashEntry {
    TrashEntry { trash_name: "1_a".to_string(), original_path: path.to_string(), size: 1, trashed_at: 1 }
}

#[test]
fn restore_decisions() {
    assert_eq!(parent_to_make("/home/u/a.txt"), Some("/home/u".to_string()));
    assert_eq!(parent_to_make("a.txt"), None);
    assert_eq!(parent_to_make("/"), None);
    assert_eq!(restore_refusal(Some("denied".to_string()), true), Some("mkdir: denied".to_string()));
    assert_eq!(restore_refusal(None, true), Some("target exists, skipping".to_string()));
    assert_eq!(restore_refusal(None, false), None);
    let ok = vec![(trashed("/a"), Ok(())), (trashed("/b"), Ok(()))];
    assert_eq!(restore_end(&ok), (2, 0, RestoreEnd::Done));
    let mixed = vec![(trashed("/a"), Ok(())), (trashed("/b"), Err("target exists, skipping".to_string()))];
    assert_eq!(restore_end(&mixed), (1, 1, RestoreEnd::Failed));
    assert_eq!(restore_end(&vec![]), (0, 0, RestoreEnd::NothingRestored));
}
