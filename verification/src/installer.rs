//! The toolkit installer: choosing components and a method, and the
//! command that installs them.
use crate::text::{lowercase_of, push_str, string_of, to_lowercase};
use vstd::prelude::*;

verus! {

/// How the components get installed.
#[derive(Debug, Clone, Copy, PartialEq, Eq)]
pub enum Method {
    CargoInstall,
    Curl,
}

/// The installer's screen: which components are ticked, the method, the row
/// under the cursor (0 to 2: a component, 3: "all") and whether the choice
/// was confirmed.
#[derive(Debug, Clone, Copy)]
pub struct State {
    pub selected: [bool; 3],
    pub method: Method,
    pub cursor: usize,
    pub confirmed: bool,
}

/// A key pressed on the installer's screen.
#[derive(Debug, Clone, Copy, PartialEq, Eq)]
pub enum Key {
    Char(char),
    Esc,
    Enter,
    Tab,
    Up,
    Down,
    Other,
}

/// Whether the installer goes on after a key, or stops.
#[derive(Debug, Clone, Copy, PartialEq, Eq)]
pub enum KeyOutcome {
    Continue,
    Stop,
}

/// The short name of a component.
pub open spec fn component_name(i: int) -> Seq<char> {
    if i == 0 {
        seq!['n', 'a', 'v']
    } else if i == 1 {
        seq!['c', 'u', 'p']
    } else {
        seq!['r', 'a', 'm']
    }
}

/// The crate that installs a component.
pub open spec fn crate_name(i: int) -> Seq<char> {
    component_name(i) + seq!['c', 'l', 'i']
}

fn component_str(i: usize) -> (r: &'static str)
    requires
        i < 3,
    ensures
        r@ == component_name(i as int),
{
    proof {
        reveal_strlit("nav");
        reveal_strlit("cup");
        reveal_strlit("ram");
    }
    if i == 0 {
        "nav"
    } else if i == 1 {
        "cup"
    } else {
        "ram"
    }
}

fn crate_str(i: usize) -> (r: &'static str)
    requires
        i < 3,
    ensures
        r@ == crate_name(i as int),
{
    proof {
        reveal_strlit("navcli");
        reveal_strlit("cupcli");
        reveal_strlit("ramcli");
    }
    if i == 0 {
        "navcli"
    } else if i == 1 {
        "cupcli"
    } else {
        "ramcli"
    }
}

/// The indices of the ticked components, in order.
pub open spec fn ticked(sel: Seq<bool>) -> Seq<int> {
    Seq::new(3, |i: int| i).filter(|i: int| sel[i])
}

/// The ticks after Space with the cursor on row `cursor`: a component row
/// flips its tick; the "all" row ticks every component unless all are
/// ticked, which unticks them; past it nothing changes.
pub open spec fn space_toggled(sel: Seq<bool>, cursor: usize) -> Seq<bool> {
    if cursor < 3 {
        sel.update(cursor as int, !sel[cursor as int])
    } else if cursor == 3 {
        let v = !(sel[0] && sel[1] && sel[2]);
        seq![v, v, v]
    } else {
        sel
    }
}

impl State {
    pub open spec fn inv(&self) -> bool {
        self.cursor <= 4
    }

    /// Nothing ticked, `cargo install`, the cursor on the first row.
    pub fn new() -> (s: State)
        ensures
            s.selected@ == seq![false, false, false],
            s.method == Method::CargoInstall,
            s.cursor == 0,
            !s.confirmed,
            s.inv(),
    {
        let s = State { selected: [false, false, false], method: Method::CargoInstall, cursor: 0, confirmed: false };
        assert(s.selected@ =~= seq![false, false, false]);
        s
    }

    pub open spec fn all_ticked(&self) -> bool {
        self.selected@[0] && self.selected@[1] && self.selected@[2]
    }

    pub fn all_selected(&self) -> (r: bool)
        ensures
            r == self.all_ticked(),
    {
        self.selected[0] && self.selected[1] && self.selected[2]
    }

    /// Space: ticks or unticks the component under the cursor; on "all",
    /// ticks every component unless all are ticked, which unticks them.
    pub fn toggle_cursor(&mut self)
        ensures
            final(self).method == old(self).method,
            final(self).cursor == old(self).cursor,
            final(self).confirmed == old(self).confirmed,
            final(self).selected@ == space_toggled(old(self).selected@, old(self).cursor),
    {
        let s = self.selected;
        let c = self.cursor;
        if c < 3 {
            let v = !s[c];
            self.selected = [if c == 0 {
                v
            } else {
                s[0]
            }, if c == 1 {
                v
            } else {
                s[1]
            }, if c == 2 {
                v
            } else {
                s[2]
            }];
            assert(self.selected@ =~= s@.update(c as int, v));
        } else if c == 3 {
            let v = !(s[0] && s[1] && s[2]);
            self.selected = [v, v, v];
            assert(self.selected@ =~= seq![v, v, v]);
        }
    }

    /// Tab: switches between `cargo install` and `curl`.
    pub fn toggle_method(&mut self)
        ensures
            final(self).method == match old(self).method {
                Method::CargoInstall => Method::Curl,
                Method::Curl => Method::CargoInstall,
            },
            final(self).selected == old(self).selected,
            final(self).cursor == old(self).cursor,
            final(self).confirmed == old(self).confirmed,
    {
        self.method = match self.method {
            Method::CargoInstall => Method::Curl,
            Method::Curl => Method::CargoInstall,
        };
    }

    /// How many components are ticked.
    pub fn selected_count(&self) -> (r: usize)
        ensures
            r == ticked(self.selected@).len(),
    {
        let mut n: usize = 0;
        let mut i: usize = 0;
        let ghost idx = Seq::new(3, |i: int| i);
        let ghost pred = |i: int| self.selected@[i];
        while i < 3
            invariant
                i <= 3,
                idx == Seq::new(3, |i: int| i),
                pred == (|i: int| self.selected@[i]),
                n == idx.take(i as int).filter(pred).len(),
            decreases 3 - i,
        {
            proof {
                assert(idx.take(i + 1) =~= idx.take(i as int).push(i as int));
                idx.take(i as int).lemma_filter_push(i as int, pred);
            }
            if self.selected[i] {
                n = n + 1;
            }
            i = i + 1;
        }
        assert(idx.take(3) =~= idx);
        n
    }

    /// The crates of the ticked components, in order.
    pub fn selected_crates(&self) -> (r: Vec<&'static str>)
        ensures
            r@.len() == ticked(self.selected@).len(),
            forall|k: int| 0 <= k < r@.len() ==> #[trigger] r@[k]@ == crate_name(ticked(self.selected@)[k]),
    {
        self.pick(true)
    }

    /// The names of the ticked components, in order.
    pub fn selected_names(&self) -> (r: Vec<&'static str>)
        ensures
            r@.len() == ticked(self.selected@).len(),
            forall|k: int| 0 <= k < r@.len() ==> #[trigger] r@[k]@ == component_name(ticked(self.selected@)[k]),
    {
        self.pick(false)
    }

    fn pick(&self, crates: bool) -> (r: Vec<&'static str>)
        ensures
            r@.len() == ticked(self.selected@).len(),
            forall|k: int| 0 <= k < r@.len() ==> #[trigger] r@[k]@ == if crates {
                crate_name(ticked(self.selected@)[k])
            } else {
                component_name(ticked(self.selected@)[k])
            },
    {
        let mut out: Vec<&'static str> = Vec::new();
        let mut i: usize = 0;
        let ghost idx = Seq::new(3, |i: int| i);
        let ghost pred = |i: int| self.selected@[i];
        while i < 3
            invariant
                i <= 3,
                idx == Seq::new(3, |i: int| i),
                pred == (|i: int| self.selected@[i]),
                out@.len() == idx.take(i as int).filter(pred).len(),
                forall|k: int| 0 <= k < out@.len() ==> #[trigger] out@[k]@ == if crates {
                    crate_name(idx.take(i as int).filter(pred)[k])
                } else {
                    component_name(idx.take(i as int).filter(pred)[k])
                },
            decreases 3 - i,
        {
            proof {
                assert(idx.take(i + 1) =~= idx.take(i as int).push(i as int));
                idx.take(i as int).lemma_filter_push(i as int, pred);
            }
            if self.selected[i] {
                out.push(
                    if crates {
                        crate_str(i)
                    } else {
                        component_str(i)
                    },
                );
            }
            i = i + 1;
        }
        assert(idx.take(3) =~= idx);
        out
    }

    /// A key press: `q` or Esc stops, Enter confirms and stops, Space toggles
    /// the row under the cursor, Tab or `m` switches the method, Up or `k`
    /// moves the cursor up (not past the first row), Down or `j` moves it down
    /// (not past "all"); other keys do nothing.
    pub fn handle_key(&mut self, key: Key) -> (r: KeyOutcome)
        requires
            old(self).inv(),
        ensures
            final(self).inv(),
            r == (if key == Key::Char('q') || key == Key::Esc || key == Key::Enter {
                KeyOutcome::Stop
            } else {
                KeyOutcome::Continue
            }),
            final(self).confirmed == (old(self).confirmed || key == Key::Enter),
            final(self).cursor == if key == Key::Up || key == Key::Char('k') {
                if old(self).cursor > 0 {
                    (old(self).cursor - 1) as usize
                } else {
                    0
                }
            } else if (key == Key::Down || key == Key::Char('j')) && old(self).cursor < 4 {
                (old(self).cursor + 1) as usize
            } else {
                old(self).cursor
            },
            final(self).method == if key == Key::Tab || key == Key::Char('m') {
                match old(self).method {
                    Method::CargoInstall => Method::Curl,
                    Method::Curl => Method::CargoInstall,
                }
            } else {
                old(self).method
            },
            final(self).selected@ == if key == Key::Char(' ') {
                space_toggled(old(self).selected@, old(self).cursor)
            } else {
                old(self).selected@
            },
    {
        match key {
            Key::Char('q') | Key::Esc => KeyOutcome::Stop,
            Key::Enter => {
                self.confirmed = true;
                KeyOutcome::Stop
            },
            Key::Char(' ') => {
                self.toggle_cursor();
                KeyOutcome::Continue
            },
            Key::Tab | Key::Char('m') => {
                self.toggle_method();
                KeyOutcome::Continue
            },
            Key::Up | Key::Char('k') => {
                self.cursor = if self.cursor > 0 {
                    self.cursor - 1
                } else {
                    0
                };
                KeyOutcome::Continue
            },
            Key::Down | Key::Char('j') => {
                if self.cursor < 4 {
                    self.cursor = self.cursor + 1;
                }
                KeyOutcome::Continue
            },
            _ => KeyOutcome::Continue,
        }
    }
}

/// Tabbing the method twice comes back to the first.
pub proof fn lemma_toggle_method_twice(m: Method)
    ensures
        match match m {
            Method::CargoInstall => Method::Curl,
            Method::Curl => Method::CargoInstall,
        } {
            Method::CargoInstall => Method::Curl,
            Method::Curl => Method::CargoInstall,
        } == m,
{
}

pub open spec fn joined_strs(ps: Seq<Seq<char>>, sep: Seq<char>) -> Seq<char> {
    crate::nav::joined_with(ps, sep)
}

fn push_joined(out: &mut Vec<char>, items: &Vec<&'static str>, sep: &str)
    ensures
        final(out)@ == old(out)@ + joined_strs(items@.map_values(|s: &'static str| s@), sep@),
{
    let ghost ws = items@.map_values(|s: &'static str| s@);
    let ghost start = out@;
    let mut i: usize = 0;
    while i < items.len()
        invariant
            i <= items.len(),
            ws == items@.map_values(|s: &'static str| s@),
            out@ == start + joined_strs(ws.take(i as int), sep@),
        decreases items.len() - i,
    {
        if i > 0 {
            push_str(out, sep);
        }
        push_str(out, items[i]);
        proof {
            assert(ws.take(i + 1).drop_last() =~= ws.take(i as int));
            assert(ws.take(i + 1).last() == items@[i as int]@);
            if i == 0 {
                assert(ws.take(1) =~= seq![ws[0]]);
                assert(start + joined_strs(ws.take(0), sep@) =~= start);
            }
            assert(out@ =~= start + joined_strs(ws.take(i + 1), sep@));
        }
        i = i + 1;
    }
    assert(ws.take(items.len() as int) =~= ws);
}

/// The command that installs: `cargo install <crates>` with the crate names
/// separated by spaces, or the `curl` installer with the component names
/// separated by commas.
pub open spec fn install_command(method: Method, names: Seq<Seq<char>>, crates: Seq<Seq<char>>) -> Seq<char> {
    match method {
        Method::CargoInstall => "cargo install "@ + joined_strs(crates, " "@),
        Method::Curl => curl_prefix() + joined_strs(names, ","@),
    }
}

pub open spec fn curl_prefix() -> Seq<char> {
    "curl -sSL https://neoutils.dev/install.sh | bash -s -- --components "@
}

pub fn install_command_text(method: Method, names: &Vec<&'static str>, crates: &Vec<&'static str>) -> (r: String)
    ensures
        r@ == install_command(
            method,
            names@.map_values(|s: &'static str| s@),
            crates@.map_values(|s: &'static str| s@),
        ),
{
    let mut out: Vec<char> = Vec::new();
    match method {
        Method::CargoInstall => {
            push_str(&mut out, "cargo install ");
            push_joined(&mut out, crates, " ");
        },
        Method::Curl => {
            push_str(&mut out, "curl -sSL https://neoutils.dev/install.sh | bash -s -- --components ");
            push_joined(&mut out, names, ",");
        },
    }
    string_of(&out)
}


pub open spec fn strs_view(v: Seq<&'static str>) -> Seq<Seq<char>> {
    v.map_values(|s: &'static str| s@)
}

pub open spec fn rule_line() -> Seq<char> {
    Seq::new(50, |i: int| '=')
}

/// What the installer prints once the choice is confirmed with components
/// ticked: a banner, the names chosen, and the command to run.
pub open spec fn instruction_lines(method: Method, names: Seq<Seq<char>>, crates: Seq<Seq<char>>) -> Seq<Seq<char>> {
    seq![
        Seq::empty(),
        rule_line(),
        "  Neoutils Toolkit - Install Instructions"@,
        rule_line(),
        Seq::empty(),
        "  Selected: "@ + joined_strs(names, ", "@),
        Seq::empty(),
        "  Run:"@,
        Seq::empty(),
        "    "@ + install_command(method, names, crates),
        Seq::empty(),
    ]
}

pub fn instructions(method: Method, names: &Vec<&'static str>, crates: &Vec<&'static str>) -> (r: Vec<String>)
    ensures
        r@.map_values(|s: String| s@) == instruction_lines(method, strs_view(names@), strs_view(crates@)),
{
    let mut rule: Vec<char> = Vec::new();
    let mut i: usize = 0;
    while i < 50
        invariant
            i <= 50,
            rule@ == Seq::new(i as nat, |j: int| '='),
        decreases 50 - i,
    {
        rule.push('=');
        assert(Seq::new((i + 1) as nat, |j: int| '=') =~= Seq::new(i as nat, |j: int| '=').push('='));
        i = i + 1;
    }
    let mut selected: Vec<char> = Vec::new();
    push_str(&mut selected, "  Selected: ");
    push_joined(&mut selected, names, ", ");
    let mut run: Vec<char> = Vec::new();
    push_str(&mut run, "    ");
    let cmd = install_command_text(method, names, crates);
    push_str(&mut run, cmd.as_str());
    let mut out: Vec<String> = Vec::new();
    out.push(String::new());
    out.push(string_of(&rule));
    out.push(String::from_str("  Neoutils Toolkit - Install Instructions"));
    out.push(string_of(&rule));
    out.push(String::new());
    out.push(string_of(&selected));
    out.push(String::new());
    out.push(String::from_str("  Run:"));
    out.push(String::new());
    out.push(string_of(&run));
    out.push(String::new());
    assert(out@.map_values(|s: String| s@) =~= instruction_lines(method, strs_view(names@), strs_view(crates@)));
    out
}

/// What the installer prints when it stops: the instructions when the
/// choice was confirmed with components ticked, a note when confirmed with
/// none, nothing when it was left.
pub open spec fn closing_lines(s: State) -> Seq<Seq<char>> {
    let idx = ticked(s.selected@);
    if s.confirmed && idx.len() > 0 {
        instruction_lines(
            s.method,
            idx.map_values(|i: int| component_name(i)),
            idx.map_values(|i: int| crate_name(i)),
        )
    } else if s.confirmed {
        seq!["No components selected."@]
    } else {
        Seq::empty()
    }
}

impl State {
    pub fn closing(&self) -> (r: Vec<String>)
        ensures
            r@.map_values(|s: String| s@) == closing_lines(*self),
    {
        let mut out: Vec<String> = Vec::new();
        if self.confirmed && self.selected_count() > 0 {
            let names = self.selected_names();
            let crates = self.selected_crates();
            let r = instructions(self.method, &names, &crates);
            proof {
                let idx = ticked(self.selected@);
                assert(strs_view(names@) =~= idx.map_values(|i: int| component_name(i)));
                assert(strs_view(crates@) =~= idx.map_values(|i: int| crate_name(i)));
            }
            return r;
        } else if self.confirmed {
            out.push(String::from_str("No components selected."));
        }
        assert(out@.map_values(|s: String| s@) =~= closing_lines(*self));
        out
    }
}

// ── the screen ──────────────────────────────────────────────────
/// What a component does, as the list shows it.
pub open spec fn component_note(i: int) -> Seq<char> {
    if i == 0 {
        "the intelligent cd replacement in Rust"@
    } else if i == 1 {
        "faster cp command"@
    } else if i == 2 {
        "safer rm command"@
    } else {
        "  install everything"@
    }
}

fn note_str(i: usize) -> (r: &'static str)
    requires
        i <= 3,
    ensures
        r@ == component_note(i as int),
{
    if i == 0 {
        "the intelligent cd replacement in Rust"
    } else if i == 1 {
        "faster cp command"
    } else if i == 2 {
        "safer rm command"
    } else {
        "  install everything"
    }
}

/// A tick box, ticked or not.
pub open spec fn tick_box(on: bool) -> Seq<char> {
    if on {
        "☑"@
    } else {
        "☐"@
    }
}

/// The text of a row of the list: the tick box and the component's name, or
/// "all" on the last row.
pub open spec fn row_label(sel: Seq<bool>, i: int) -> Seq<char> {
    if i < 3 {
        tick_box(sel[i]) + " "@ + component_name(i) + "  "@
    } else {
        tick_box(sel[0] && sel[1] && sel[2]) + " all"@
    }
}

/// One row of the component list as it is drawn.
#[derive(Debug, Clone)]
pub struct MenuRow {
    /// `▸ ` on the row under the cursor, two spaces on the others.
    pub pointer: &'static str,
    /// The tick box and the name.
    pub label: String,
    /// What the row installs, drawn dimmed.
    pub note: &'static str,
    /// Whether the cursor is on the row (drawn highlighted).
    pub current: bool,
}

/// The method line: each method's label, marked when it is the one chosen.
pub open spec fn method_label(m: Method, chosen: bool) -> Seq<char> {
    match (m, chosen) {
        (Method::CargoInstall, true) => " ● cargo install"@,
        (Method::CargoInstall, false) => "   cargo install"@,
        (Method::Curl, true) => " ● curl"@,
        (Method::Curl, false) => "   curl"@,
    }
}

impl State {
    /// The rows of the component list: the three components, then "all".
    pub fn menu_rows(&self) -> (r: Vec<MenuRow>)
        ensures
            r@.len() == 4,
            forall|i: int|
                0 <= i < 4 ==> {
                    &&& (#[trigger] r@[i]).pointer@ == (if i == self.cursor {
                        "▸ "@
                    } else {
                        "  "@
                    })
                    &&& r@[i].label@ == row_label(self.selected@, i)
                    &&& r@[i].note@ == component_note(i)
                    &&& r@[i].current == (i == self.cursor)
                },
    {
        let mut out: Vec<MenuRow> = Vec::new();
        let all = self.all_selected();
        let mut i: usize = 0;
        while i < 4
            invariant
                i <= 4,
                out@.len() == i,
                all == self.all_ticked(),
                forall|k: int|
                    0 <= k < i ==> {
                        &&& (#[trigger] out@[k]).pointer@ == (if k == self.cursor {
                            "▸ "@
                        } else {
                            "  "@
                        })
                        &&& out@[k].label@ == row_label(self.selected@, k)
                        &&& out@[k].note@ == component_note(k)
                        &&& out@[k].current == (k == self.cursor)
                    },
            decreases 4 - i,
        {
            let current = i == self.cursor;
            let mut label: Vec<char> = Vec::new();
            if i < 3 {
                push_str(&mut label, if self.selected[i] { "☑" } else { "☐" });
                push_str(&mut label, " ");
                push_str(&mut label, component_str(i));
                push_str(&mut label, "  ");
            } else {
                push_str(&mut label, if all { "☑" } else { "☐" });
                push_str(&mut label, " all");
            }
            let row = MenuRow {
                pointer: if current { "▸ " } else { "  " },
                label: string_of(&label),
                note: note_str(i),
                current,
            };
            out.push(row);
            i = i + 1;
        }
        out
    }
}

/// The labels of the two methods, `cargo install` then `curl`, each with
/// whether it is the one chosen.
pub fn method_labels(method: Method) -> (r: [(&'static str, bool); 2])
    ensures
        r[0].0@ == method_label(Method::CargoInstall, method == Method::CargoInstall),
        r[0].1 == (method == Method::CargoInstall),
        r[1].0@ == method_label(Method::Curl, method == Method::Curl),
        r[1].1 == (method == Method::Curl),
{
    match method {
        Method::CargoInstall => [(" ● cargo install", true), ("   curl", false)],
        Method::Curl => [("   cargo install", false), (" ● curl", true)],
    }
}

// ── the non-interactive mode ────────────────────────────────────
/// Why no install command could be given.
#[derive(Debug, Clone, Copy, PartialEq, Eq)]
pub enum LlmError {
    /// No known component was asked for.
    NoComponents,
    /// The method is neither `cargo-install` nor `curl`.
    UnknownMethod,
}

/// The components asked for, each read by its lower-case form (`lows`,
/// one per component): the crates, each once, in the order first asked for
/// (`all` giving all three at once and ending the reading), and the names
/// that are no component, in order.
pub open spec fn resolve_from(
    comps: Seq<Seq<char>>,
    lows: Seq<Seq<char>>,
    crates: Seq<Seq<char>>,
    unknown: Seq<Seq<char>>,
) -> (Seq<Seq<char>>, Seq<Seq<char>>)
    decreases comps.len(),
{
    if comps.len() == 0 {
        (crates, unknown)
    } else {
        let l = lows[0];
        if l == "all"@ {
            (seq![crate_name(0), crate_name(1), crate_name(2)], unknown)
        } else if l == "nav"@ || l == "cup"@ || l == "ram"@ {
            let c = l + "cli"@;
            resolve_from(
                comps.drop_first(),
                lows.drop_first(),
                if crates.contains(c) {
                    crates
                } else {
                    crates.push(c)
                },
                unknown,
            )
        } else {
            resolve_from(comps.drop_first(), lows.drop_first(), crates, unknown.push(comps[0]))
        }
    }
}

/// The lower-case forms of the components.
pub open spec fn lowered(comps: Seq<Seq<char>>) -> Seq<Seq<char>> {
    comps.map_values(|c: Seq<char>| lowercase_of(c))
}

/// Each crate is installed once: however often a component is asked for,
/// its crate appears once in what is resolved.
pub proof fn lemma_resolved_once(
    comps: Seq<Seq<char>>,
    lows: Seq<Seq<char>>,
    crates: Seq<Seq<char>>,
    unknown: Seq<Seq<char>>,
)
    requires
        crates.no_duplicates(),
    ensures
        resolve_from(comps, lows, crates, unknown).0.no_duplicates(),
    decreases comps.len(),
{
    if comps.len() > 0 {
        let l = lows[0];
        if l == "all"@ {
            let all = seq![crate_name(0), crate_name(1), crate_name(2)];
            assert(crate_name(0)[0] == 'n' && crate_name(1)[0] == 'c' && crate_name(2)[0] == 'r');
            assert(all.no_duplicates());
        } else if l == "nav"@ || l == "cup"@ || l == "ram"@ {
            let c = l + "cli"@;
            if !crates.contains(c) {
                assert forall|i: int, j: int|
                    0 <= i < j < crates.push(c).len() implies crates.push(c)[i] != crates.push(c)[j] by {
                    if j == crates.len() {
                        assert(crates[i] != c);
                    }
                }
                lemma_resolved_once(comps.drop_first(), lows.drop_first(), crates.push(c), unknown);
            } else {
                lemma_resolved_once(comps.drop_first(), lows.drop_first(), crates, unknown);
            }
        } else {
            lemma_resolved_once(comps.drop_first(), lows.drop_first(), crates, unknown.push(comps[0]));
        }
    }
}

/// The crates asked for, and the names that are no component.
pub struct Resolution {
    pub crates: Vec<&'static str>,
    pub unknown: Vec<String>,
}

fn str_is(v: &Vec<char>, lit: &str) -> (r: bool)
    ensures
        r == (v@ == lit@),
{
    let l = crate::text::chars_of(lit);
    let r = crate::text::range_is(v, 0, v.len(), l.as_slice());
    assert(v@.subrange(0, v.len() as int) =~= v@);
    r
}

fn contains_str(v: &Vec<&'static str>, x: &'static str) -> (r: bool)
    ensures
        r == strs_view(v@).contains(x@),
{
    let xc = crate::text::chars_of(x);
    let mut i: usize = 0;
    while i < v.len()
        invariant
            i <= v.len(),
            xc@ == x@,
            forall|j: int| 0 <= j < i ==> v@[j]@ != x@,
        decreases v.len() - i,
    {
        let c = crate::text::chars_of(v[i]);
        if str_is(&c, x) {
            assert(strs_view(v@)[i as int] == x@);
            return true;
        }
        i = i + 1;
    }
    assert forall|j: int| 0 <= j < strs_view(v@).len() implies strs_view(v@)[j] != x@ by {}
    false
}

/// Resolves the components asked for (see `resolve_from`), reading each in
/// lower case.
pub fn resolve_components(components: &Vec<String>) -> (r: Resolution)
    ensures
        (strs_view(r.crates@), crate::trash::strings_view(r.unknown@)) == resolve_from(
            crate::trash::strings_view(components@),
            lowered(crate::trash::strings_view(components@)),
            Seq::empty(),
            Seq::empty(),
        ),
{
    let mut lows: Vec<String> = Vec::new();
    let mut i: usize = 0;
    while i < components.len()
        invariant
            i <= components.len(),
            lows@.len() == i,
            forall|k: int| 0 <= k < i ==> (#[trigger] lows@[k])@ == lowercase_of(components@[k]@),
        decreases components.len() - i,
    {
        lows.push(to_lowercase(components[i].as_str()));
        i = i + 1;
    }
    assert(crate::trash::strings_view(lows@) =~= lowered(crate::trash::strings_view(components@)));
    resolve_lowered(components, &lows)
}

/// Resolves the components asked for, given the lower-case form of each
/// (see `resolve_from`).
pub fn resolve_lowered(components: &Vec<String>, lows: &Vec<String>) -> (r: Resolution)
    requires
        lows.len() == components.len(),
    ensures
        (strs_view(r.crates@), crate::trash::strings_view(r.unknown@)) == resolve_from(
            crate::trash::strings_view(components@),
            crate::trash::strings_view(lows@),
            Seq::empty(),
            Seq::empty(),
        ),
{
    let ghost comps = crate::trash::strings_view(components@);
    let ghost lv = crate::trash::strings_view(lows@);
    let mut crates: Vec<&'static str> = Vec::new();
    let mut unknown: Vec<String> = Vec::new();
    let mut i: usize = 0;
    proof {
        reveal_strlit("nav");
        reveal_strlit("cup");
        reveal_strlit("ram");
        reveal_strlit("cli");
        reveal_strlit("navcli");
        reveal_strlit("cupcli");
        reveal_strlit("ramcli");
        assert(comps.skip(0) =~= comps);
        assert(lv.skip(0) =~= lv);
        assert(strs_view(crates@) =~= Seq::<Seq<char>>::empty());
        assert(crate::trash::strings_view(unknown@) =~= Seq::<Seq<char>>::empty());
    }
    while i < components.len()
        invariant
            i <= components.len(),
            lows.len() == components.len(),
            comps == crate::trash::strings_view(components@),
            lv == crate::trash::strings_view(lows@),
            resolve_from(comps, lv, Seq::empty(), Seq::empty()) == resolve_from(
                comps.skip(i as int),
                lv.skip(i as int),
                strs_view(crates@),
                crate::trash::strings_view(unknown@),
            ),
        decreases components.len() - i,
    {
        let lc = crate::text::chars_of(lows[i].as_str());
        proof {
            assert(comps.skip(i as int)[0] == comps[i as int]);
            assert(comps.skip(i as int).drop_first() =~= comps.skip(i + 1));
            assert(lv.skip(i as int)[0] == lv[i as int]);
            assert(lv.skip(i as int).drop_first() =~= lv.skip(i + 1));
            reveal_strlit("nav");
            reveal_strlit("cup");
            reveal_strlit("ram");
            reveal_strlit("cli");
            reveal_strlit("navcli");
            reveal_strlit("cupcli");
            reveal_strlit("ramcli");
        }
        if str_is(&lc, "all") {
            let mut all: Vec<&'static str> = Vec::new();
            all.push(crate_str(0));
            all.push(crate_str(1));
            all.push(crate_str(2));
            assert(strs_view(all@) =~= seq![crate_name(0), crate_name(1), crate_name(2)]);
            return Resolution { crates: all, unknown };
        }
        let known: Option<usize> = if str_is(&lc, "nav") {
            Some(0)
        } else if str_is(&lc, "cup") {
            Some(1)
        } else if str_is(&lc, "ram") {
            Some(2)
        } else {
            None
        };
        let ghost cv = strs_view(crates@);
        let ghost uv = crate::trash::strings_view(unknown@);
        let ghost l = lv[i as int];
        assert(l == lc@);
        match known {
            Some(k) => {
                let c = crate_str(k);
                assert(c@ == lc@ + "cli"@);
                assert(l == "nav"@ || l == "cup"@ || l == "ram"@);
                assert(l != "all"@);
                if !contains_str(&crates, c) {
                    crates.push(c);
                    assert(strs_view(crates@) =~= cv.push(c@));
                }
                assert(resolve_from(comps.skip(i as int), lv.skip(i as int), cv, uv) == resolve_from(
                    comps.skip(i + 1),
                    lv.skip(i + 1),
                    strs_view(crates@),
                    uv,
                ));
            },
            None => {
                assert(l != "all"@ && l != "nav"@ && l != "cup"@ && l != "ram"@);
                unknown.push(components[i].clone());
                assert(crate::trash::strings_view(unknown@) =~= uv.push(comps[i as int]));
                assert(resolve_from(comps.skip(i as int), lv.skip(i as int), cv, uv) == resolve_from(
                    comps.skip(i + 1),
                    lv.skip(i + 1),
                    cv,
                    crate::trash::strings_view(unknown@),
                ));
            },
        }
        i = i + 1;
    }
    (Resolution { crates, unknown })
}

/// The component name of an installer crate (`navcli` gives `nav`).
pub open spec fn short_name(c: Seq<char>) -> Seq<char> {
    if c == crate_name(0) {
        component_name(0)
    } else if c == crate_name(1) {
        component_name(1)
    } else {
        component_name(2)
    }
}

/// The command for the crates asked for with the `method` named: refused
/// when there are none, then when the method is unknown.
pub open spec fn llm_answer(crates: Seq<Seq<char>>, method: Seq<char>) -> Result<Seq<char>, LlmError> {
    if crates.len() == 0 {
        Err(LlmError::NoComponents)
    } else if method == "cargo-install"@ {
        Ok(install_command(Method::CargoInstall, Seq::empty(), crates))
    } else if method == "curl"@ {
        Ok(install_command(Method::Curl, crates.map_values(|c: Seq<char>| short_name(c)), Seq::empty()))
    } else {
        Err(LlmError::UnknownMethod)
    }
}

pub fn llm_command(crates: &Vec<&'static str>, method: &str) -> (r: Result<String, LlmError>)
    requires
        forall|k: int| 0 <= k < crates@.len() ==> exists|i: int| 0 <= i < 3 && #[trigger] crates@[k]@ == crate_name(i),
    ensures
        match r {
            Ok(s) => llm_answer(strs_view(crates@), method@) == Ok::<Seq<char>, LlmError>(s@),
            Err(e) => llm_answer(strs_view(crates@), method@) == Err::<Seq<char>, LlmError>(e),
        },
{
    if crates.len() == 0 {
        return Err(LlmError::NoComponents);
    }
    let m = crate::text::chars_of(method);
    let empty: Vec<&'static str> = Vec::new();
    if str_is(&m, "cargo-install") {
        let r = install_command_text(Method::CargoInstall, &empty, crates);
        assert(strs_view(empty@) =~= Seq::<Seq<char>>::empty());
        return Ok(r);
    }
    if str_is(&m, "curl") {
        let mut names: Vec<&'static str> = Vec::new();
        let mut i: usize = 0;
        proof {
            reveal_strlit("navcli");
            reveal_strlit("cupcli");
            reveal_strlit("ramcli");
        }
        while i < crates.len()
            invariant
                i <= crates.len(),
                forall|k: int| 0 <= k < crates@.len() ==> exists|i: int| 0 <= i < 3 && #[trigger] crates@[k]@ == crate_name(i),
                names@.len() == i,
                forall|k: int| 0 <= k < i ==> #[trigger] names@[k]@ == short_name(crates@[k]@),
            decreases crates.len() - i,
        {
            let c = crate::text::chars_of(crates[i]);
            let n = if str_is(&c, "navcli") {
                component_str(0)
            } else if str_is(&c, "cupcli") {
                component_str(1)
            } else {
                proof {
                    reveal_strlit("navcli");
                    reveal_strlit("cupcli");
                    let w = choose|w: int| 0 <= w < 3 && crates@[i as int]@ == crate_name(w);
                    assert(crate_name(0) =~= "navcli"@);
                    assert(crate_name(1) =~= "cupcli"@);
                    assert(w == 2);
                }
                component_str(2)
            };
            proof {
                reveal_strlit("navcli");
                reveal_strlit("cupcli");
                assert(crate_name(0) =~= "navcli"@);
                assert(crate_name(1) =~= "cupcli"@);
            }
            names.push(n);
            i = i + 1;
        }
        let r = install_command_text(Method::Curl, &names, &empty);
        assert(strs_view(names@) =~= strs_view(crates@).map_values(|c: Seq<char>| short_name(c)));
        return Ok(r);
    }
    Err(LlmError::UnknownMethod)
}

} // verus!
