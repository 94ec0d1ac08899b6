use neoutils::gitignore::{collect_gitignored, compile_gitignore, gitignore_action, CompiledGitignore};
use neoutils::paths::{collect_matching, WalkAction};
use neoutils::trash::trash_entry;

fn lines(v: &[&str]) -> Vec<String> {
    v.iter().map(|s| s.to_string()).collect()
}

fn rules(root: &str, v: &[&str]) -> CompiledGitignore {
    compile_gitignore(&format!("{}/.gitignore", root), root, &lines(v)).unwrap()
}

#[test]
fn gitignore_rules_decide_the_walk() {
    let g = vec![rules("/r", &["# logs", "*.log", "build/", "!keep.log"])];
    assert_eq!(gitignore_action(&g, "/r/a.log", false), Some(WalkAction::Collect));
    assert_eq!(gitignore_action(&g, "/r/src/deep/b.log", false), Some(WalkAction::Collect));
    assert_eq!(gitignore_action(&g, "/r/keep.log", false), Some(WalkAction::Pass));
    assert_eq!(gitignore_action(&g, "/r/build", true), Some(WalkAction::Collect));
    assert_eq!(gitignore_action(&g, "/r/build", false), Some(WalkAction::Pass));
    assert_eq!(gitignore_action(&g, "/r/src", true), Some(WalkAction::Descend));
    assert_eq!(gitignore_action(&g, "/r/x.txt", false), Some(WalkAction::Pass));
    assert_eq!(gitignore_action(&g, "/r/.git", true), Some(WalkAction::Skip));
    // rules of another directory say nothing of a path outside it
    assert_eq!(gitignore_action(&g, "/elsewhere/a.log", false), Some(WalkAction::Pass));
    assert_eq!(gitignore_action(&g, "/r2/a.log", false), Some(WalkAction::Pass));
}

#[test]
fn deeper_gitignore_files_override_those_above() {
    let g = vec![rules("/r", &["*.log", "*.tmp"]), rules("/r/sub", &["!keep.log", "*.bak"])];
    assert_eq!(gitignore_action(&g, "/r/a.log", false), Some(WalkAction::Collect));
    assert_eq!(gitignore_action(&g, "/r/sub/a.log", false), Some(WalkAction::Collect));
    assert_eq!(gitignore_action(&g, "/r/sub/keep.log", false), Some(WalkAction::Pass));
    assert_eq!(gitignore_action(&g, "/r/keep.log", false), Some(WalkAction::Collect));
    assert_eq!(gitignore_action(&g, "/r/sub/x.bak", false), Some(WalkAction::Collect));
    assert_eq!(gitignore_action(&g, "/r/x.bak", false), Some(WalkAction::Pass));
    assert_eq!(gitignore_action(&g, "/r/sub/x.tmp", false), Some(WalkAction::Collect));
    // the order in which the files are given does not matter
    let h = vec![rules("/r/sub", &["!keep.log", "*.bak"]), rules("/r", &["*.log", "*.tmp"])];
    assert_eq!(gitignore_action(&h, "/r/sub/keep.log", false), Some(WalkAction::Pass));
    // a path that a file applies to but cannot be asked about
    assert_eq!(gitignore_action(&g, "/r//a.log", false), None);
}

#[test]
fn gitignore_byte_order_mark_and_refusals() {
    let g = vec![rules("/r", &["\u{feff}*.tmp"])];
    assert_eq!(gitignore_action(&g, "/r/x.tmp", false), Some(WalkAction::Collect));
    let e = compile_gitignore("/r/.gitignore", "/r", &lines(&["ok", "{a", "fine", "{b"])).err().unwrap();
    assert!(e.starts_with("failed to read /r/.gitignore: /r/.gitignore: line 2: error parsing glob '{a'"), "{}", e);
    assert!(e.contains("\n/r/.gitignore: line 4: error parsing glob '{b'"), "{}", e);
    assert_eq!(e.lines().count(), 2);
}

#[test]
fn deeply_nested_globs_are_refused() {
    let mut p = String::new();
    for _ in 0..300 {
        p.push_str("{a,");
    }
    p.push('b');
    for _ in 0..300 {
        p.push('}');
    }
    assert!(collect_matching(&p, &vec!["/r/a".to_string()]).is_err());
}

#[test]
fn the_settings_file_is_not_a_trash_entry() {
    assert!(trash_entry("config.json".to_string(), 10, None).is_none());
    assert!(trash_entry("5_config.json".to_string(), 10, None).is_some());
}

#[test]
fn gitignored_entries_of_several_walks_come_sorted_once() {
    let walk_a = vec![
        ("/r/z.log".to_string(), false),
        ("/r/src".to_string(), true),
        ("/r/src/a.rs".to_string(), false),
        ("/r/src/gen".to_string(), true),
        ("/r/build".to_string(), true),
        ("/r/.git".to_string(), true),
    ];
    let walk_b = vec![("/s/x.tmp".to_string(), false), ("/s/y.txt".to_string(), false)];
    let walks = vec![
        (vec![rules("/r", &["*.log", "build/"]), rules("/r/src", &["gen/"])], walk_a.clone()),
        (vec![rules("/s", &["*.tmp"])], walk_b),
    ];
    assert_eq!(
        collect_gitignored(&walks),
        Some(vec![
            "/r/build".to_string(),
            "/r/src/gen".to_string(),
            "/r/z.log".to_string(),
            "/s/x.tmp".to_string()
        ])
    );
    let walks = vec![
        (vec![rules("/r", &["*.log", "build/"])], walk_a.clone()),
        (vec![rules("/r", &["*.log", "build/"])], walk_a),
    ];
    assert_eq!(
        collect_gitignored(&walks),
        Some(vec!["/r/build".to_string(), "/r/z.log".to_string()])
    );
    let odd = vec![(vec![rules("/r", &["*.log"])], vec![("/r//a.log".to_string(), false)])];
    assert_eq!(collect_gitignored(&odd), None);
}
