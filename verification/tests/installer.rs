use neoutils::installer::{
    install_command_text, instructions, llm_command, method_labels, resolve_components, resolve_lowered, Key,
    KeyOutcome, LlmError, Method, State,
};

fn strs(v: &[&str]) -> Vec<String> {
    v.iter().map(|s| s.to_string()).collect()
}

#[test]
fn a_new_screen() {
    let s = State::new();
    assert_eq!(s.selected, [false, false, false]);
    assert_eq!(s.method, Method::CargoInstall);
    assert_eq!(s.cursor, 0);
    assert!(!s.confirmed);
    assert_eq!(s.selected_count(), 0);
}

#[test]
fn ticking_components() {
    let mut s = State::new();
    assert_eq!(s.handle_key(Key::Char(' ')), KeyOutcome::Continue);
    assert_eq!(s.selected, [true, false, false]);
    s.handle_key(Key::Down);
    s.handle_key(Key::Char('j'));
    s.handle_key(Key::Char(' '));
    assert_eq!(s.selected, [true, false, true]);
    assert_eq!(s.selected_names(), vec!["nav", "ram"]);
    assert_eq!(s.selected_crates(), vec!["navcli", "ramcli"]);
    assert_eq!(s.selected_count(), 2);
}

#[test]
fn the_all_row() {
    let mut s = State::new();
    for _ in 0..3 {
        s.handle_key(Key::Down);
    }
    assert_eq!(s.cursor, 3);
    s.handle_key(Key::Char(' '));
    assert_eq!(s.selected, [true, true, true]);
    assert!(s.all_selected());
    s.handle_key(Key::Char(' '));
    assert_eq!(s.selected, [false, false, false]);
}

#[test]
fn the_cursor_stays_in_bounds() {
    let mut s = State::new();
    s.handle_key(Key::Up);
    s.handle_key(Key::Char('k'));
    assert_eq!(s.cursor, 0);
    for _ in 0..10 {
        s.handle_key(Key::Down);
    }
    assert_eq!(s.cursor, 4);
    s.handle_key(Key::Char(' '));
    assert_eq!(s.selected, [false, false, false]);
}

#[test]
fn method_and_exit_keys() {
    let mut s = State::new();
    s.handle_key(Key::Tab);
    assert_eq!(s.method, Method::Curl);
    s.handle_key(Key::Char('m'));
    assert_eq!(s.method, Method::CargoInstall);
    assert_eq!(s.handle_key(Key::Other), KeyOutcome::Continue);
    assert_eq!(s.handle_key(Key::Char('q')), KeyOutcome::Stop);
    assert!(!s.confirmed);
    assert_eq!(s.handle_key(Key::Esc), KeyOutcome::Stop);
    assert_eq!(s.handle_key(Key::Enter), KeyOutcome::Stop);
    assert!(s.confirmed);
}

#[test]
fn install_commands() {
    assert_eq!(
        install_command_text(Method::CargoInstall, &vec!["nav", "cup"], &vec!["navcli", "cupcli"]),
        "cargo install navcli cupcli"
    );
    assert_eq!(
        install_command_text(Method::Curl, &vec!["nav", "cup"], &vec!["navcli", "cupcli"]),
        "curl -sSL https://neoutils.dev/install.sh | bash -s -- --components nav,cup"
    );
}

#[test]
fn printed_instructions() {
    let lines = instructions(Method::CargoInstall, &vec!["nav", "ram"], &vec!["navcli", "ramcli"]);
    let rule = "=".repeat(50);
    let expected = vec![
        "".to_string(),
        rule.clone(),
        "  Neoutils Toolkit - Install Instructions".to_string(),
        rule,
        "".to_string(),
        "  Selected: nav, ram".to_string(),
        "".to_string(),
        "  Run:".to_string(),
        "".to_string(),
        "    cargo install navcli ramcli".to_string(),
        "".to_string(),
    ];
    assert_eq!(lines, expected);
}

#[test]
fn closing_words() {
    let mut s = State::new();
    assert!(s.closing().is_empty());
    s.handle_key(Key::Enter);
    assert_eq!(s.closing(), vec!["No components selected.".to_string()]);
    let mut t = State::new();
    t.handle_key(Key::Char(' '));
    t.handle_key(Key::Tab);
    t.handle_key(Key::Enter);
    let lines = t.closing();
    assert_eq!(lines.len(), 11);
    assert_eq!(lines[5], "  Selected: nav");
    assert_eq!(lines[9], "    curl -sSL https://neoutils.dev/install.sh | bash -s -- --components nav");
}

#[test]
fn resolving_components() {
    let r = resolve_components(&strs(&["nav", "NAV", "Cup", "foo"]));
    assert_eq!(r.crates, vec!["navcli", "cupcli"]);
    assert_eq!(r.unknown, vec!["foo".to_string()]);
    let r = resolve_components(&strs(&["ram", "all", "bogus"]));
    assert_eq!(r.crates, vec!["navcli", "cupcli", "ramcli"]);
    assert!(r.unknown.is_empty());
    let r = resolve_components(&strs(&["x", "y"]));
    assert!(r.crates.is_empty());
    assert_eq!(r.unknown.len(), 2);
}

#[test]
fn llm_mode_commands() {
    assert_eq!(
        llm_command(&vec!["navcli", "ramcli"], "cargo-install"),
        Ok("cargo install navcli ramcli".to_string())
    );
    assert_eq!(
        llm_command(&vec!["cupcli", "navcli"], "curl"),
        Ok("curl -sSL https://neoutils.dev/install.sh | bash -s -- --components cup,nav".to_string())
    );
    assert_eq!(llm_command(&vec![], "curl"), Err(LlmError::NoComponents));
    assert_eq!(llm_command(&vec!["navcli"], "apt"), Err(LlmError::UnknownMethod));
}

#[test]
fn menu_rows() {
    let mut s = State::new();
    s.handle_key(Key::Char(' '));
    s.handle_key(Key::Down);
    let rows = s.menu_rows();
    assert_eq!(rows.len(), 4);
    assert_eq!(rows[0].pointer, "  ");
    assert_eq!(rows[0].label, "☑ nav  ");
    assert_eq!(rows[0].note, "the intelligent cd replacement in Rust");
    assert!(!rows[0].current);
    assert_eq!(rows[1].pointer, "▸ ");
    assert_eq!(rows[1].label, "☐ cup  ");
    assert!(rows[1].current);
    assert_eq!(rows[2].note, "safer rm command");
    assert_eq!(rows[3].label, "☐ all");
    assert_eq!(rows[3].note, "  install everything");
}

#[test]
fn method_line() {
    assert_eq!(method_labels(Method::CargoInstall), [(" ● cargo install", true), ("   curl", false)]);
    assert_eq!(method_labels(Method::Curl), [("   cargo install", false), (" ● curl", true)]);
}

#[test]
fn resolving_given_lower_case_forms() {
    let r = resolve_lowered(&strs(&["NAV", "Ram"]), &strs(&["nav", "ram"]));
    assert_eq!(r.crates, vec!["navcli", "ramcli"]);
    assert!(r.unknown.is_empty());
    let r = resolve_lowered(&strs(&["X"]), &strs(&["x"]));
    assert_eq!(r.unknown, strs(&["X"]));
}
