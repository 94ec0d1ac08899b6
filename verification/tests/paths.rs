use neoutils::gitignore::{compile_gitignore, gitignore_action};
use neoutils::paths::{
    collect_matching, detect_env_files, file_name, filter_by_age, filter_by_min_size,
    gitignore_candidates, gitignore_walk_root, is_env_path, is_root, matching_sorted,
    parent_path, same_path, sort_dedup_paths, strip_path_prefix, walk_skips, Probe, WalkAction,
};

fn strs(v: &[&str]) -> Vec<String> {
    v.iter().map(|s| s.to_string()).collect()
}

#[test]
fn file_names() {
    assert_eq!(file_name("a/b.txt"), Some("b.txt".to_string()));
    assert_eq!(file_name("/a/b/"), Some("b".to_string()));
    assert_eq!(file_name("a/."), Some("a".to_string()));
    assert_eq!(file_name("/"), None);
    assert_eq!(file_name("a/.."), None);
    assert_eq!(file_name(""), None);
    assert_eq!(file_name("."), None);
}

#[test]
fn the_root_is_protected() {
    assert!(is_root("/", None));
    assert!(is_root("//", None));
    assert!(is_root("/.", None));
    assert!(is_root("/tmp/..", Some("/")));
    assert!(!is_root("/tmp", None));
    assert!(!is_root("/tmp", Some("/tmp")));
    assert!(!is_root("/tmp/..", None));
}

#[test]
fn env_file_names() {
    assert!(is_env_path(".env"));
    assert!(is_env_path("x/.env.local"));
    assert!(is_env_path("/a/b/.env"));
    assert!(!is_env_path(".envrc"));
    assert!(!is_env_path("env"));
    assert!(is_env_path("/a/.env/"));
}

fn probe(path: &str, is_dir: bool, is_file: bool, below: &[(&str, bool)]) -> Probe {
    Probe {
        path: path.to_string(),
        is_dir,
        is_file,
        below: below.iter().map(|(p, f)| (p.to_string(), *f)).collect(),
    }
}

#[test]
fn env_files_among_targets() {
    let targets = vec![
        probe("proj", true, false, &[("proj/.env", true), ("proj/src", false), ("proj/src/.env.test", true), ("proj/.env.d", false)]),
        probe("notes/.env.prod", false, true, &[]),
        probe("other.txt", false, true, &[]),
        probe(".env", false, false, &[]),
    ];
    assert_eq!(detect_env_files(&targets), strs(&["proj/.env", "proj/src/.env.test", "notes/.env.prod"]));
}

#[test]
fn age_and_size_filters() {
    let v = vec![
        ("a".to_string(), Some(100i128)),
        ("b".to_string(), Some(500i128)),
        ("c".to_string(), None),
    ];
    assert_eq!(filter_by_age(v.clone(), 600, 1000), strs(&["a"]));
    assert_eq!(filter_by_age(v.clone(), 300, 1000), strs(&["a", "b"]));
    assert_eq!(filter_by_age(v.clone(), 0, 1000), strs(&["a", "b"]));
    assert_eq!(filter_by_age(v, 5000, 1000), Vec::<String>::new());
    let w = vec![("a".to_string(), Some(10u64)), ("b".to_string(), Some(99u64)), ("c".to_string(), None)];
    assert_eq!(filter_by_min_size(w.clone(), 10), strs(&["b"]));
    assert_eq!(filter_by_min_size(w.clone(), 9), strs(&["a", "b"]));
    assert_eq!(filter_by_min_size(w, 50), strs(&["b"]));
}

#[test]
fn paths_sorted_and_deduplicated() {
    let v = strs(&["/b", "/a-b", "/a/b", "/a", "/a/", "/a//b"]);
    assert_eq!(sort_dedup_paths(&v), strs(&["/a", "/a/b", "/a-b", "/b"]));
    assert_eq!(sort_dedup_paths(&strs(&["b", "a", "b"])), strs(&["a", "b"]));
    assert_eq!(sort_dedup_paths(&vec![]), Vec::<String>::new());
    assert_eq!(sort_dedup_paths(&strs(&["a", "/a", ".", ".."])), strs(&["/a", ".", "..", "a"]));
}

#[test]
fn parents() {
    assert_eq!(parent_path("/a/b"), Some("/a".to_string()));
    assert_eq!(parent_path("/a/b/"), Some("/a".to_string()));
    assert_eq!(parent_path("/a"), Some("/".to_string()));
    assert_eq!(parent_path("/"), None);
    assert_eq!(parent_path("a"), Some("".to_string()));
    assert_eq!(parent_path(""), None);
    assert_eq!(parent_path("./a"), Some(".".to_string()));
    assert_eq!(parent_path("a/b/."), Some("a".to_string()));
    assert_eq!(parent_path("/a/./b/c"), Some("/a/./b".to_string()));
    assert_eq!(parent_path(".."), Some("".to_string()));
    assert_eq!(parent_path("."), Some("".to_string()));
}

#[test]
fn gitignore_search() {
    assert_eq!(
        gitignore_candidates("/a/b", true),
        strs(&["/a/b/.gitignore", "/a/.gitignore", "/.gitignore"])
    );
    assert_eq!(gitignore_candidates("/a/f.txt", false), strs(&["/a/.gitignore", "/.gitignore"]));
    assert_eq!(gitignore_candidates("/", false), Vec::<String>::new());
    assert_eq!(gitignore_candidates("d", true), strs(&["d/.gitignore", ".gitignore"]));
    assert_eq!(gitignore_walk_root("/a/b", true), "/a/b");
    assert_eq!(gitignore_walk_root("/a/f.txt", false), "/a");
    assert_eq!(gitignore_walk_root("/", false), ".");
}

#[test]
fn walks() {
    assert!(walk_skips("/repo/.git"));
    assert!(!walk_skips("/repo/.github"));
    let g = vec![compile_gitignore("/repo/.gitignore", "/repo", &vec!["target/".to_string()]).unwrap()];
    assert_eq!(gitignore_action(&g, "/repo/.git", true), Some(WalkAction::Skip));
    assert_eq!(gitignore_action(&g, "/repo/target", true), Some(WalkAction::Collect));
    assert_eq!(gitignore_action(&g, "/repo/src", true), Some(WalkAction::Descend));
    assert_eq!(gitignore_action(&g, "/repo/main.rs", false), Some(WalkAction::Pass));
}

#[test]
fn matching_by_glob() {
    let walked = strs(&["/r/b.txt", "/r/a.txt", "/r/sub", "/r/sub/c.txt", "/r/sub/d.md"]);
    assert_eq!(collect_matching("*.txt", &walked), Ok(strs(&["/r/a.txt", "/r/b.txt", "/r/sub/c.txt"])));
    assert_eq!(collect_matching("/r/sub/*", &walked), Ok(strs(&["/r/sub/c.txt", "/r/sub/d.md"])));
    assert_eq!(collect_matching("sub", &walked), Ok(strs(&["/r/sub"])));
    assert_eq!(collect_matching("*.rs", &walked), Ok(vec![]));
    match collect_matching("a[", &walked) {
        Err(msg) => assert!(msg.starts_with("invalid glob: "), "{}", msg),
        Ok(_) => panic!("an unclosed class is no glob"),
    }
}

#[test]
fn prefixes() {
    assert_eq!(strip_path_prefix("/a/b/c", "/a"), Some("b/c".to_string()));
    assert_eq!(strip_path_prefix("/a/b/c", "/a/"), Some("b/c".to_string()));
    assert_eq!(strip_path_prefix("/a/b", "/a/b"), Some("".to_string()));
    assert_eq!(strip_path_prefix("/ab", "/a"), None);
    assert_eq!(strip_path_prefix("a/b", "/a"), None);
    assert_eq!(strip_path_prefix("src/x/../y", "src"), Some("x/../y".to_string()));
    assert!(same_path("/a/b/", "/a//b"));
    assert!(!same_path("/a/b", "/a/c"));
}

#[test]
fn flagged_paths_sorted() {
    let walked = strs(&["/r/b", "/r/a", "/r/c", "/r/a/"]);
    assert_eq!(matching_sorted(&walked, &vec![true, true, false, true]), strs(&["/r/a", "/r/b"]));
    assert_eq!(matching_sorted(&walked, &vec![false; 4]), Vec::<String>::new());
}
