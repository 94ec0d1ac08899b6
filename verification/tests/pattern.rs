use neoutils::nav::{query, NavEntry, QueryOutcome};
use neoutils::pattern::{compile_glob, compile_regex};

fn entry(path: &str, rank: u64) -> NavEntry {
    NavEntry { path: path.to_string(), rank, time: 100 }
}

fn listed(outcome: QueryOutcome) -> Vec<String> {
    match outcome {
        QueryOutcome::Listing(v) => v.iter().map(|m| m.path.clone()).collect(),
        other => panic!("unexpected {:?}", other),
    }
}

#[test]
fn patterns_compile_or_not() {
    assert!(compile_regex("pro.*s").is_some());
    assert!(compile_regex("(").is_none());
    assert!(compile_glob("*.txt").is_ok());
    assert!(compile_glob("[").is_err());
    assert!(compile_glob("{a,b").is_err());
}

#[test]
fn restricting_to_the_current_directory_takes_it_literally() {
    let db = vec![entry("/home/a.b/x", 1), entry("/home/axb/x", 5)];
    let words = vec!["x".to_string()];
    let got = listed(query(&db, true, false, true, false, false, &words, Some("/home/a.b".to_string()), 200));
    assert_eq!(got, vec!["/home/a.b/x"]);
    let got = listed(query(&db, false, false, true, false, false, &words, None, 200));
    assert_eq!(got, vec!["/home/axb/x", "/home/a.b/x"]);
}

#[test]
fn query_words_are_regular_expressions() {
    let db = vec![entry("/srv/data", 1), entry("/home/srv", 2), entry("/home/projects", 3)];
    let got = listed(query(&db, false, false, true, false, false, &vec!["^/srv".to_string()], None, 200));
    assert_eq!(got, vec!["/srv/data"]);
    let got = listed(query(&db, false, false, true, false, false, &vec!["pro.*s".to_string()], None, 200));
    assert_eq!(got, vec!["/home/projects"]);
    match query(&db, false, false, true, false, false, &vec!["(".to_string()], None, 200) {
        QueryOutcome::Nothing => {}
        other => panic!("unexpected {:?}", other),
    }
}
