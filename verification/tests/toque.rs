use yaks::toque::{parse_key, DriverOpts, KeyName, KeySpec, Session, SnapshotEncoder, StepAction};

/// A minimal app: one line `hi <n>`, with a counter that increments on any
/// key (`q` quits).
struct Dummy {
    n: u32,
    quit: bool,
}

impl Dummy {
    fn new() -> Self {
        Dummy { n: 0, quit: false }
    }

    /// The rendered grid: `w` cells per row, `h` rows, blank cells " ".
    fn grid(&self, w: u16, h: u16) -> Vec<Vec<String>> {
        let text: Vec<char> = format!("hi {}", self.n).chars().collect();
        (0..h)
            .map(|y| {
                (0..w as usize)
                    .map(|x| if y == 0 && x < text.len() { text[x].to_string() } else { " ".to_string() })
                    .collect()
            })
            .collect()
    }

    fn handle_key(&mut self, k: KeySpec) {
        match k.code {
            KeyName::Char('q') => self.quit = true,
            _ => self.n += 1,
        }
    }

    fn state_header(&self) -> String {
        format!("n={}", self.n)
    }
}

fn emit(s: &mut Session, app: &Dummy, out: &mut Vec<String>) {
    let (w, h) = s.size();
    let body = SnapshotEncoder::new().encode(&app.grid(w, h));
    out.extend(s.emit(body, &app.state_header()));
}

/// Carry out one protocol line; `false` when the loop should stop.
fn step(s: &mut Session, app: &mut Dummy, line: &str, out: &mut Vec<String>) -> bool {
    match s.step(line) {
        StepAction::Idle => true,
        StepAction::Quit => false,
        StepAction::Snapshot | StepAction::Resize { .. } => {
            emit(s, app, out);
            true
        }
        StepAction::Keys(keys) => {
            for k in keys {
                app.handle_key(k);
            }
            emit(s, app, out);
            !app.quit
        }
        StepAction::Unknown(l) => {
            out.push(format!("! unknown action: {l}"));
            true
        }
    }
}

fn session(diff: bool) -> Session {
    Session::new(DriverOpts { width: 20, height: 3, diff })
}

fn drive(script: &[&str]) -> String {
    let mut s = session(false);
    let mut app = Dummy::new();
    let mut out = Vec::new();
    emit(&mut s, &app, &mut out);
    for line in script {
        step(&mut s, &mut app, line, &mut out);
    }
    out.join("\n") + "\n"
}

#[test]
fn lib_snapshot_has_header_and_grid() {
    let out = drive(&["key j"]);
    assert_eq!(out.matches("=== frame ").count(), 2);
    assert!(out.contains("n=0"));
    assert!(out.contains("n=1"));
    assert!(out.contains("hi"));
}

#[test]
fn empty_state_header_omitted() {
    let mut s = Session::new(DriverOpts { width: 10, height: 2, diff: false });
    let grid: Vec<Vec<String>> = vec![vec![" ".to_string(); 10]; 2];
    let body = SnapshotEncoder::new().encode(&grid);
    let out = s.emit(body, "").join("\n");
    assert!(out.contains("=== frame 0 \u{b7} 10x2 ==="));
}

#[test]
fn lib_diff_mode_full_then_delta() {
    let mut s = session(true);
    let mut app = Dummy::new();
    let mut out = Vec::new();
    emit(&mut s, &app, &mut out);
    step(&mut s, &mut app, "key j", &mut out);
    let out = out.join("\n");
    assert!(out.contains(" \u{b7} full \u{b7} "));
    assert!(out.contains(" \u{b7} diff \u{b7} "));
    assert!(out.contains("\nL"));
}

#[test]
fn resize_updates_geometry() {
    let mut s = session(false);
    let mut app = Dummy::new();
    let mut out = Vec::new();
    step(&mut s, &mut app, "resize 40 5", &mut out);
    assert!(out.join("\n").contains("40x5"));
}

#[test]
fn parse_key_handles_names_and_ctrl() {
    assert_eq!(parse_key("Enter").code, KeyName::Enter);
    assert_eq!(parse_key("j").code, KeyName::Char('j'));
    let c = parse_key("C-c");
    assert_eq!(c.code, KeyName::Char('c'));
    assert!(c.ctrl);
}

#[test]
fn quit_action_stops_the_loop() {
    let mut s = session(false);
    let mut app = Dummy::new();
    let mut out = Vec::new();
    assert!(!step(&mut s, &mut app, "quit", &mut out));
}

#[test]
fn should_quit_stops_the_loop() {
    let mut s = session(false);
    let mut app = Dummy::new();
    let mut out = Vec::new();
    assert!(!step(&mut s, &mut app, "key q", &mut out));
}

#[test]
fn frames_are_exact_and_diffs_list_only_changed_lines() {
    let mut s = session(true);
    let mut app = Dummy::new();
    let mut out = Vec::new();
    emit(&mut s, &app, &mut out);
    assert_eq!(out, vec!["=== frame 0 \u{b7} 20x3 \u{b7} full \u{b7} n=0 ===", "hi 0", "", "", "=== end ==="]);
    out.clear();
    step(&mut s, &mut app, "type ab\r\n", &mut out);
    assert_eq!(out, vec!["=== frame 1 \u{b7} 20x3 \u{b7} diff \u{b7} n=2 ===", "L0: hi 2", "=== end ==="]);
    out.clear();
    // A resize changes the body's length: the next frame is whole again.
    step(&mut s, &mut app, "resize 5 2 extra", &mut out);
    assert_eq!(out, vec!["=== frame 2 \u{b7} 5x2 \u{b7} full \u{b7} n=2 ===", "hi 2", "", "=== end ==="]);
    out.clear();
    // Sizes that do not parse leave the geometry alone; 0 counts as 1.
    step(&mut s, &mut app, "resize 70000 3", &mut out);
    assert_eq!(s.size(), (5, 2));
    step(&mut s, &mut app, "resize 0 +4", &mut out);
    assert_eq!(s.size(), (1, 4));
    assert!(step(&mut s, &mut app, "", &mut out));
    out.clear();
    assert!(step(&mut s, &mut app, "bogus", &mut out));
    assert_eq!(out, vec!["! unknown action: bogus"]);
}

#[test]
fn key_names_cover_the_protocol() {
    let names = [
        ("Esc", KeyName::Esc),
        ("Tab", KeyName::Tab),
        ("BackTab", KeyName::BackTab),
        ("Space", KeyName::Char(' ')),
        ("Backspace", KeyName::Backspace),
        ("Up", KeyName::Up),
        ("Down", KeyName::Down),
        ("Left", KeyName::Left),
        ("Right", KeyName::Right),
        ("Home", KeyName::Home),
        ("End", KeyName::End),
        ("PageUp", KeyName::PageUp),
        ("PageDown", KeyName::PageDown),
        ("Delete", KeyName::Delete),
        ("F13", KeyName::Null),
        ("", KeyName::Null),
    ];
    for (name, code) in names {
        assert_eq!(parse_key(name), KeySpec { code, ctrl: false }, "{name}");
    }
    assert_eq!(parse_key("C-"), KeySpec { code: KeyName::Null, ctrl: true });
}

#[test]
fn encode_trims_trailing_blank_cells_only() {
    let row = |cells: &[&str]| cells.iter().map(|c| c.to_string()).collect::<Vec<String>>();
    let grid = vec![row(&["a", " ", "b", " ", " "]), row(&[" ", " "]), row(&[]), row(&["\u{4e16}", "", " x"])];
    assert_eq!(SnapshotEncoder::new().encode(&grid), vec!["a b", "", "", "\u{4e16} x"]);
}
