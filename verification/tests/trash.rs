use neoutils::trash::{
    config_from_text,
    absolute_path, auto_clean, clean_trash, config_path, format_timestamp, meta_name,
    restore_selection, sort_by_time, trash_dir, trash_entry, trash_name_for, RamConfig, TrashEntry,
};

const NS: u64 = 1_000_000_000;

fn entry(name: &str, path: &str, size: u64, at: u64) -> TrashEntry {
    TrashEntry {
        trash_name: name.to_string(),
        original_path: path.to_string(),
        size,
        trashed_at: at,
    }
}

fn names(v: &[TrashEntry]) -> Vec<String> {
    v.iter().map(|e| e.trash_name.clone()).collect()
}

#[test]
fn trash_locations() {
    assert_eq!(trash_dir(Some("/home/u".to_string())), "/home/u/.ram_trash");
    assert_eq!(trash_dir(Some("/home/u/".to_string())), "/home/u/.ram_trash");
    assert_eq!(trash_dir(None), "/tmp/.ram_trash");
    assert_eq!(config_path(Some("/home/u".to_string())), "/home/u/.ram_trash/config.json");
}

#[test]
fn trash_names() {
    assert_eq!(trash_name_for(123, "a.txt"), "123_a.txt");
    assert_eq!(trash_name_for(0, ""), "0_");
    assert_eq!(meta_name("123_a.txt"), ".123_a.txt.meta");
}

#[test]
fn absolute_paths() {
    assert_eq!(absolute_path("a/b", "/cwd"), "/cwd/a/b");
    assert_eq!(absolute_path("a", "/"), "/a");
    assert_eq!(absolute_path("/x/y", "/cwd"), "/x/y");
    assert_eq!(absolute_path("a/b", ""), "a/b");
}

#[test]
fn trash_entries_are_read_back() {
    let e = trash_entry("123_a.txt".to_string(), 10, Some(" /cwd/a.txt\n".to_string())).unwrap();
    assert_eq!(e.trash_name, "123_a.txt");
    assert_eq!(e.original_path, "/cwd/a.txt");
    assert_eq!(e.size, 10);
    assert_eq!(e.trashed_at, 123);
}

#[test]
fn trash_entry_round_trip() {
    let name = trash_name_for(1_700_000_000_123_456_789, "notes.md");
    let e = trash_entry(name.clone(), 42, Some("/home/u/notes.md".to_string())).unwrap();
    assert_eq!(e.trash_name, name);
    assert_eq!(e.original_path, "/home/u/notes.md");
    assert_eq!(e.trashed_at, 1_700_000_000_123_456_789);
}

#[test]
fn trash_entry_odd_names() {
    assert!(trash_entry(".123_a.txt.meta".to_string(), 1, None).is_none());
    let e = trash_entry("abc_x".to_string(), 1, None).unwrap();
    assert_eq!(e.trashed_at, 0);
    assert_eq!(e.original_path, "abc_x");
    let e = trash_entry("+5_x".to_string(), 1, None).unwrap();
    assert_eq!(e.trashed_at, 5);
    let big = trash_entry("18446744073709551617_x".to_string(), 1, None).unwrap();
    assert_eq!(big.trashed_at, 1);
}

#[test]
fn sorting_by_time() {
    let v = vec![
        entry("a", "/a", 1, 5),
        entry("b", "/b", 1, 9),
        entry("c", "/c", 1, 5),
        entry("d", "/d", 1, 1),
    ];
    assert_eq!(names(&sort_by_time(v.clone(), true)), vec!["b", "a", "c", "d"]);
    assert_eq!(names(&sort_by_time(v, false)), vec!["d", "a", "c", "b"]);
}

#[test]
fn cleaning_by_age_and_size() {
    let now: i128 = 100 * 86400 * NS as i128;
    let v = vec![
        entry("old_big", "/a", 5000, 10 * 86400 * NS),
        entry("old_small", "/b", 10, 20 * 86400 * NS),
        entry("new_big", "/c", 9000, 99 * 86400 * NS),
    ];
    let (removed, freed) = clean_trash(v.clone(), now, Some(30 * 86400 * NS as u128), None);
    assert_eq!(names(&removed), vec!["old_big", "old_small"]);
    assert_eq!(freed, 5010);
    let (removed, freed) = clean_trash(v.clone(), now, None, Some(1000));
    assert_eq!(names(&removed), vec!["old_big", "new_big"]);
    assert_eq!(freed, 14000);
    let (removed, _) = clean_trash(v.clone(), now, None, Some(5000));
    assert_eq!(names(&removed), vec!["new_big"]);
    let (removed, freed) = clean_trash(v.clone(), now, Some(30 * 86400 * NS as u128), Some(1000));
    assert_eq!(names(&removed), vec!["old_big"]);
    assert_eq!(freed, 5000);
    let (removed, freed) = clean_trash(v, now, None, None);
    assert_eq!(removed.len(), 3);
    assert_eq!(freed, 14010);
}

#[test]
fn restoring_by_pattern() {
    let v = vec![
        entry("1_report.pdf", "/docs/report.pdf", 1, 1),
        entry("2_notes.txt", "/home/notes.txt", 1, 2),
        entry("3_x", "/tmp/x", 1, 3),
    ];
    assert_eq!(names(&restore_selection(&v, &vec!["docs".to_string()])), vec!["1_report.pdf"]);
    assert_eq!(
        names(&restore_selection(&v, &vec!["2_".to_string(), "tmp".to_string()])),
        vec!["2_notes.txt", "3_x"]
    );
    assert_eq!(names(&restore_selection(&v, &vec![])).len(), 3);
    assert_eq!(names(&restore_selection(&v, &vec!["".to_string()])).len(), 3);
    assert!(restore_selection(&v, &vec!["zzz".to_string()]).is_empty());
}

#[test]
fn auto_clean_without_settings() {
    let config = RamConfig { max_size: None, max_age: None };
    assert!(auto_clean(&config, vec![entry("a", "/a", 1, 1)], 10).is_none());
}

#[test]
fn auto_clean_by_size_removes_the_oldest() {
    let config = RamConfig { max_size: Some("1KB".to_string()), max_age: None };
    let v = vec![
        entry("mid", "/m", 1000, 20),
        entry("old", "/o", 1000, 10),
        entry("new", "/n", 1000, 30),
    ];
    let (removed, freed) = auto_clean(&config, v, 100).unwrap();
    assert_eq!(names(&removed), vec!["old", "mid"]);
    assert_eq!(freed, 2000);
}

#[test]
fn auto_clean_by_age() {
    let config = RamConfig { max_size: None, max_age: Some("1d".to_string()) };
    let now: i128 = 10 * 86400 * NS as i128;
    let v = vec![
        entry("old", "/o", 3, 1 * 86400 * NS),
        entry("new", "/n", 4, 9 * 86400 * NS + 1),
    ];
    let (removed, freed) = auto_clean(&config, v.clone(), now).unwrap();
    assert_eq!(names(&removed), vec!["old"]);
    assert_eq!(freed, 3);
    let config = RamConfig { max_size: Some("1MB".to_string()), max_age: Some("30d".to_string()) };
    assert!(auto_clean(&config, v, now).is_none());
}

#[test]
fn auto_clean_ignores_unreadable_limits() {
    let config = RamConfig { max_size: Some("lots".to_string()), max_age: Some("soon".to_string()) };
    assert!(auto_clean(&config, vec![entry("a", "/a", 1 << 40, 0)], 1 << 80).is_none());
}

#[test]
fn timestamps() {
    assert_eq!(format_timestamp(3661, 3761), "01:01:01");
    assert_eq!(format_timestamp(90061, 90061 + 2 * 86400), "2d 01:01");
    assert_eq!(format_timestamp(0, 10 * 86400), "1970-01-01");
    assert_eq!(format_timestamp(1_700_000_000, 1_700_000_000 + 30 * 86400), "2023-11-14");
    assert_eq!(format_timestamp(500, 100), "00:08:20");
}

#[test]
fn configuration_text() {
    let c = config_from_text(r#"{"max_size":"1GB", "max_age":"30d"}"#);
    assert_eq!(c.max_size.as_deref(), Some("1GB"));
    assert_eq!(c.max_age.as_deref(), Some("30d"));
    let c = config_from_text(r#"{"max_size": 5, "other": "x"}"#);
    assert_eq!(c.max_size, None);
    assert_eq!(c.max_age, None);
    let c = config_from_text("not json");
    assert_eq!(c.max_size, None);
    assert_eq!(c.max_age, None);
    let c = config_from_text(r#"["max_size"]"#);
    assert_eq!(c.max_size, None);
}
