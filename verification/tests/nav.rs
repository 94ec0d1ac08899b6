use neoutils::nav::{
    add_visit, answer_query, common_prefix, data_path, format_entries, frecency, is_excluded,
    listing_line, parse_entries, parse_entry_line, query, remove_path, NavEntry, QueryOutcome, RankBy, Scored,
};

fn e(path: &str, rank: u64, time: u64) -> NavEntry {
    NavEntry { path: path.to_string(), rank, time }
}

fn s(path: &str, score: u64) -> Scored {
    Scored { path: path.to_string(), score }
}

fn words(ws: &[&str]) -> Vec<String> {
    ws.iter().map(|w| w.to_string()).collect()
}

fn db() -> Vec<NavEntry> {
    vec![e("/x/long/path", 10, 1000), e("/x/lo", 1, 1000), e("/srv/data", 3, 500)]
}

#[test]
fn frecency_scores() {
    assert_eq!(frecency(1, 0), 30000);
    assert_eq!(frecency(10, 0), 300000);
    assert_eq!(frecency(10, 3600), 232919);
    assert_eq!(frecency(0, 100), 0);
    assert!(frecency(5, 10) >= frecency(5, 1000));
}

#[test]
fn frecency_keeps_order_of_rank_and_age() {
    let ranks = [0u64, 1, 2, 3, 7, 100, 9000, 1 << 40, u64::MAX];
    let ages = [0u64, 1, 59, 3600, 86_400, 10_000_000, 1 << 50, u64::MAX];
    for &r1 in ranks.iter() {
        for &r2 in ranks.iter().filter(|&&r| r >= r1) {
            for &a2 in ages.iter() {
                for &a1 in ages.iter().filter(|&&a| a >= a2) {
                    assert!(frecency(r1, a1) <= frecency(r2, a2), "{} {} {} {}", r1, a1, r2, a2);
                }
            }
        }
    }
}

#[test]
fn database_lines() {
    let x = parse_entry_line("/a|3|100").unwrap();
    assert_eq!((x.path.as_str(), x.rank, x.time), ("/a", 3, 100));
    let y = parse_entry_line("  /b c|1|5 \n").unwrap();
    assert_eq!((y.path.as_str(), y.rank, y.time), ("/b c", 1, 5));
    let z = parse_entry_line("/c|2|7|extra").unwrap();
    assert_eq!((z.path.as_str(), z.rank, z.time), ("/c", 2, 7));
    assert!(parse_entry_line("/a|x|1").is_none());
    assert!(parse_entry_line("/a|3").is_none());
    assert!(parse_entry_line("   ").is_none());
    assert!(parse_entry_line("/a|-3|1").is_none());
}

#[test]
fn database_text() {
    assert_eq!(format_entries(&vec![e("/a", 3, 100), e("/b", 1, 5)]), "/a|3|100\n/b|1|5\n");
    assert_eq!(format_entries(&vec![]), "");
}

#[test]
fn written_lines_read_back() {
    let text = format_entries(&vec![e("/a b/c", 42, 1_700_000_000)]);
    let back = parse_entry_line(text.trim_end()).unwrap();
    assert_eq!((back.path.as_str(), back.rank, back.time), ("/a b/c", 42, 1_700_000_000));
}

#[test]
fn excluded_directories() {
    assert!(is_excluded("/home/u", "/home/u", None));
    assert!(is_excluded("/", "/home/u", None));
    assert!(is_excluded("/tmp/x", "/home/u", Some("/var:/tmp")));
    assert!(!is_excluded("/srv", "/home/u", Some("/var:/tmp")));
    assert!(is_excluded("/srv", "/home/u", Some("/var:")));
    assert!(!is_excluded("/srv", "/home/u", None));
}

#[test]
fn visits() {
    let v = add_visit(vec![], "/a".to_string(), 100);
    assert_eq!(v.len(), 1);
    assert_eq!((v[0].path.as_str(), v[0].rank, v[0].time), ("/a", 1, 100));
    let v = add_visit(v, "/a".to_string(), 200);
    assert_eq!((v[0].path.as_str(), v[0].rank, v[0].time), ("/a", 2, 200));
    let v = add_visit(v, "/b".to_string(), 300);
    assert_eq!(v.len(), 2);
    assert_eq!((v[1].path.as_str(), v[1].rank, v[1].time), ("/b", 1, 300));
}

#[test]
fn visits_age_the_database() {
    let v = add_visit(vec![e("/a", 9000, 5)], "/b".to_string(), 300);
    assert_eq!(v.len(), 1);
    assert_eq!((v[0].path.as_str(), v[0].rank, v[0].time), ("/a", 8910, 5));
    let total: u64 = v.iter().map(|x| x.rank).sum();
    assert!(total <= 9000);
}

#[test]
fn removing_a_directory() {
    let v = remove_path(vec![e("/a", 1, 1), e("/b", 2, 2), e("/a", 3, 3)], "/a");
    assert_eq!(v.len(), 1);
    assert_eq!(v[0].path, "/b");
}

#[test]
fn common_prefixes() {
    assert_eq!(common_prefix(&vec![s("/a", 1), s("/a/b", 2)]), Some("/a".to_string()));
    assert_eq!(common_prefix(&vec![s("/a", 1)]), None);
    assert_eq!(common_prefix(&vec![s("/", 1), s("/a", 2)]), None);
    assert_eq!(common_prefix(&vec![s("/a/b", 1), s("/c", 2)]), None);
}

#[test]
fn database_location() {
    assert_eq!(data_path(Some("/d".to_string()), Some("/h".to_string())), Some("/d".to_string()));
    assert_eq!(data_path(None, Some("/h".to_string())), Some("/h/.nav".to_string()));
    assert_eq!(data_path(None, None), None);
}

#[test]
fn query_jumps_to_the_common_prefix() {
    match query(&db(), false, false, false, false, false, &words(&["lo"]), None, 1000) {
        QueryOutcome::Jump(p) => assert_eq!(p, "/x/lo"),
        other => panic!("unexpected {:?}", other),
    }
}

#[test]
fn query_echo_takes_the_best_match() {
    match query(&db(), false, true, false, false, false, &words(&["lo"]), None, 1000) {
        QueryOutcome::Jump(p) => assert_eq!(p, "/x/long/path"),
        other => panic!("unexpected {:?}", other),
    }
    match query(&db(), false, false, false, true, false, &words(&["lo"]), None, 1000) {
        QueryOutcome::Jump(p) => assert_eq!(p, "/x/long/path"),
        other => panic!("unexpected {:?}", other),
    }
}

#[test]
fn query_lists() {
    match query(&db(), false, false, true, false, false, &words(&["x"]), None, 1000) {
        QueryOutcome::Listing(v) => {
            let got: Vec<(String, u64)> = v.iter().map(|m| (m.path.clone(), m.score)).collect();
            assert_eq!(got, vec![("/x/long/path".to_string(), 300000), ("/x/lo".to_string(), 30000)]);
        }
        other => panic!("unexpected {:?}", other),
    }
    match query(&db(), false, false, false, false, true, &words(&[]), None, 1000) {
        QueryOutcome::Listing(v) => {
            let got: Vec<String> = v.iter().map(|m| m.path.clone()).collect();
            assert_eq!(got, vec!["/x/long/path", "/x/lo", "/srv/data"]);
        }
        other => panic!("unexpected {:?}", other),
    }
}

#[test]
fn query_falls_back_to_any_case() {
    match query(&db(), false, false, false, false, false, &words(&["DATA"]), None, 1000) {
        QueryOutcome::Jump(p) => assert_eq!(p, "/srv/data"),
        other => panic!("unexpected {:?}", other),
    }
}

#[test]
fn query_restricted_to_the_current_directory() {
    match query(&db(), true, false, true, false, false, &words(&[]), Some("/srv".to_string()), 1000) {
        QueryOutcome::Listing(v) => {
            assert_eq!(v.len(), 1);
            assert_eq!(v[0].path, "/srv/data");
        }
        other => panic!("unexpected {:?}", other),
    }
}

#[test]
fn query_without_matches() {
    assert!(matches!(
        query(&db(), false, false, false, false, false, &words(&["zzz"]), None, 1000),
        QueryOutcome::Nothing
    ));
    assert!(matches!(
        query(&db(), false, false, false, false, false, &words(&["("]), None, 1000),
        QueryOutcome::Nothing
    ));
    assert!(matches!(
        query(&vec![], false, false, true, false, false, &words(&[]), None, 1000),
        QueryOutcome::Nothing
    ));
}

#[test]
fn listing_lines() {
    assert_eq!(listing_line(&s("/x", 300000)), "    300000  /x");
    assert_eq!(listing_line(&s("/y", 12345678901)), "12345678901  /y");
}

#[test]
fn answering_from_flagged_matches() {
    let entries = db();
    match answer_query(&entries, &vec![true, true, false], false, false, RankBy::Frecency, false, 1000) {
        QueryOutcome::Jump(p) => assert_eq!(p, "/x/lo"),
        other => panic!("unexpected {:?}", other),
    }
    match answer_query(&entries, &vec![false, false, true], false, false, RankBy::Rank, false, 1000) {
        QueryOutcome::Jump(p) => assert_eq!(p, "/srv/data"),
        other => panic!("unexpected {:?}", other),
    }
    match answer_query(&entries, &vec![true, true, true], false, false, RankBy::Recent, true, 1000) {
        QueryOutcome::Listing(v) => {
            let got: Vec<(String, u64)> = v.iter().map(|m| (m.path.clone(), m.score)).collect();
            assert_eq!(
                got,
                vec![("/x/long/path".to_string(), 1000), ("/x/lo".to_string(), 1000), ("/srv/data".to_string(), 500)]
            );
        }
        other => panic!("unexpected {:?}", other),
    }
    assert!(matches!(
        answer_query(&entries, &vec![false, false, false], false, true, RankBy::Frecency, false, 1000),
        QueryOutcome::Nothing
    ));
}

#[test]
fn database_text_reads_back() {
    let es = vec![e("/a b", 3, 100), e("/c", 0, 7), e("", 1, 2)];
    let text = format_entries(&es);
    let back = parse_entries(&text);
    let got: Vec<(String, u64, u64)> = back.iter().map(|x| (x.path.clone(), x.rank, x.time)).collect();
    assert_eq!(got, vec![("/a b".to_string(), 3, 100), ("/c".to_string(), 0, 7), ("".to_string(), 1, 2)]);
    let mixed = parse_entries("/x|1|2\r\nbroken\n\n/y|3|4");
    let got: Vec<String> = mixed.iter().map(|x| x.path.clone()).collect();
    assert_eq!(got, vec!["/x", "/y"]);
}
