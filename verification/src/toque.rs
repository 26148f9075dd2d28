//! The bookkeeping of a headless terminal-app driver: its line protocol
//! (`key <name>`, `type <text>`, `snapshot`, `resize <w> <h>`, `quit`), the
//! framed plain-text snapshot it emits after each action, and the
//! line-level diff between frames.
//!
//! The rendered frame is handed in as a grid of cell symbols, one row per
//! terminal line; the app behind the driver is the caller's.

use vstd::prelude::*;
use crate::text::{
    chars_of, string_of, is_ws, whitespace, trim_seq, trim_start_seq, trim, push_all, push_str,
    copy_chars,
};
use crate::store::write::{dec, dec_spec};
use crate::store::layout::{parse_u32, parse_u32_spec};

verus! {

/// Configuration of a driver session.
pub struct DriverOpts {
    pub width: u16,
    pub height: u16,
    /// After the first (full) frame, emit only the changed body lines as
    /// `L<i>: <line>`.
    pub diff: bool,
}

// ---------------------------------------------------------------------------
// keys
// ---------------------------------------------------------------------------

/// A key the protocol can press.
#[derive(Debug, Clone, Copy, PartialEq, Eq, Structural)]
pub enum KeyName {
    Enter,
    Esc,
    Tab,
    BackTab,
    Backspace,
    Up,
    Down,
    Left,
    Right,
    Home,
    End,
    PageUp,
    PageDown,
    Delete,
    Char(char),
    /// An unknown name.
    Null,
}

/// A key press: the key and whether Ctrl is held.
#[derive(Debug, Clone, Copy, PartialEq, Eq, Structural)]
pub struct KeySpec {
    pub code: KeyName,
    pub ctrl: bool,
}

/// The key a name stands for: a named key, `Space`, a single char, or
/// nothing known.
pub open spec fn key_name_spec(name: Seq<char>) -> KeyName {
    if name == "Enter"@ {
        KeyName::Enter
    } else if name == "Esc"@ {
        KeyName::Esc
    } else if name == "Tab"@ {
        KeyName::Tab
    } else if name == "BackTab"@ {
        KeyName::BackTab
    } else if name == "Space"@ {
        KeyName::Char(' ')
    } else if name == "Backspace"@ {
        KeyName::Backspace
    } else if name == "Up"@ {
        KeyName::Up
    } else if name == "Down"@ {
        KeyName::Down
    } else if name == "Left"@ {
        KeyName::Left
    } else if name == "Right"@ {
        KeyName::Right
    } else if name == "Home"@ {
        KeyName::Home
    } else if name == "End"@ {
        KeyName::End
    } else if name == "PageUp"@ {
        KeyName::PageUp
    } else if name == "PageDown"@ {
        KeyName::PageDown
    } else if name == "Delete"@ {
        KeyName::Delete
    } else if name.len() == 1 {
        KeyName::Char(name[0])
    } else {
        KeyName::Null
    }
}

/// A key spec: a name, optionally prefixed `C-` for Ctrl.
pub open spec fn parse_key_spec(spec: Seq<char>) -> KeySpec {
    if spec.len() >= 2 && spec[0] == 'C' && spec[1] == '-' {
        KeySpec { code: key_name_spec(spec.skip(2)), ctrl: true }
    } else {
        KeySpec { code: key_name_spec(spec), ctrl: false }
    }
}

fn is_name(name: &Vec<char>, lit: &str) -> (b: bool)
    ensures
        b == (name@ == lit@),
{
    crate::text::eq_str(name, lit)
}

/// Parse a key spec: a single char or a named key (`Enter`, `Esc`, `Tab`,
/// `BackTab`, `Space`, `Backspace`, `Up`, `Down`, `Left`, `Right`, `Home`,
/// `End`, `PageUp`, `PageDown`, `Delete`), optionally prefixed `C-` for
/// Ctrl. Unknown names give [`KeyName::Null`].
pub fn parse_key(spec: &str) -> (k: KeySpec)
    ensures
        k == parse_key_spec(spec@),
{
    let s = chars_of(spec);
    let (ctrl, name) = if s.len() >= 2 && s[0] == 'C' && s[1] == '-' {
        (true, crate::text::slice(&s, 2, s.len()))
    } else {
        (false, copy_chars(&s))
    };
    assert(ctrl ==> name@ == spec@.skip(2));
    let code = if is_name(&name, "Enter") {
        KeyName::Enter
    } else if is_name(&name, "Esc") {
        KeyName::Esc
    } else if is_name(&name, "Tab") {
        KeyName::Tab
    } else if is_name(&name, "BackTab") {
        KeyName::BackTab
    } else if is_name(&name, "Space") {
        KeyName::Char(' ')
    } else if is_name(&name, "Backspace") {
        KeyName::Backspace
    } else if is_name(&name, "Up") {
        KeyName::Up
    } else if is_name(&name, "Down") {
        KeyName::Down
    } else if is_name(&name, "Left") {
        KeyName::Left
    } else if is_name(&name, "Right") {
        KeyName::Right
    } else if is_name(&name, "Home") {
        KeyName::Home
    } else if is_name(&name, "End") {
        KeyName::End
    } else if is_name(&name, "PageUp") {
        KeyName::PageUp
    } else if is_name(&name, "PageDown") {
        KeyName::PageDown
    } else if is_name(&name, "Delete") {
        KeyName::Delete
    } else if name.len() == 1 {
        KeyName::Char(name[0])
    } else {
        KeyName::Null
    };
    KeySpec { code, ctrl }
}

// ---------------------------------------------------------------------------
// the snapshot grid
// ---------------------------------------------------------------------------

/// The displayed width of a row: one past its last cell that is not a
/// single space.
pub open spec fn row_width(row: Seq<Seq<char>>) -> int
    decreases row.len(),
{
    if row.len() == 0 {
        0
    } else if row.last() != seq![' '] {
        row.len() as int
    } else {
        row_width(row.drop_last())
    }
}

/// The cells' symbols one after another.
pub open spec fn concat(cells: Seq<Seq<char>>) -> Seq<char>
    decreases cells.len(),
{
    if cells.len() == 0 {
        seq![]
    } else {
        concat(cells.drop_last()) + cells.last()
    }
}

/// A row as a snapshot line: its cells up to its displayed width.
pub open spec fn row_text(row: Seq<Seq<char>>) -> Seq<char> {
    concat(row.take(row_width(row)))
}

pub open spec fn row_views(row: Seq<String>) -> Seq<Seq<char>> {
    row.map_values(|c: String| c@)
}

pub open spec fn strs(v: Seq<String>) -> Seq<Seq<char>> {
    v.map_values(|s: String| s@)
}

proof fn lemma_row_width(row: Seq<Seq<char>>)
    ensures
        0 <= row_width(row) <= row.len(),
    decreases row.len(),
{
    if row.len() > 0 && row.last() == seq![' '] {
        lemma_row_width(row.drop_last());
    }
}

/// Encodes rendered grids into snapshot body lines.
pub struct SnapshotEncoder;

impl SnapshotEncoder {
    pub fn new() -> Self {
        SnapshotEncoder
    }

    /// Encode one grid into body lines, one per row. Trailing blank cells
    /// of each row are dropped; interior white space is kept verbatim.
    pub fn encode(&mut self, grid: &Vec<Vec<String>>) -> (r: Vec<String>)
        ensures
            r@.len() == grid@.len(),
            forall|y: int| 0 <= y < grid@.len() ==> #[trigger] r@[y]@ == row_text(row_views(grid@[y]@)),
    {
        let mut out: Vec<String> = Vec::new();
        let mut y: usize = 0;
        while y < grid.len()
            invariant
                y <= grid.len(),
                out@.len() == y,
                forall|q: int| 0 <= q < y ==> #[trigger] out@[q]@ == row_text(row_views(grid@[q]@)),
            decreases grid.len() - y,
        {
            let line = encode_row(&grid[y]);
            out.push(line);
            y += 1;
        }
        out
    }
}

fn encode_row(row: &Vec<String>) -> (r: String)
    ensures
        r@ == row_text(row_views(row@)),
{
    let ghost rv = row_views(row@);
    let mut w = row.len();
    assert(rv.take(w as int) =~= rv);
    while w > 0 && crate::text::same(row[w - 1].as_str(), " ")
        invariant
            w <= row.len(),
            rv == row_views(row@),
            row_width(rv) == row_width(rv.take(w as int)),
        decreases w,
    {
        proof {
            reveal_strlit(" ");
            assert(rv.take(w as int).last() == rv[w - 1]);
            assert(" "@ =~= seq![' ']);
            assert(rv.take(w as int).drop_last() =~= rv.take(w - 1));
        }
        w -= 1;
    }
    proof {
        reveal_strlit(" ");
        assert(" "@ =~= seq![' ']);
        if w > 0 {
            assert(rv.take(w as int).last() == rv[w - 1]);
        }
        assert(row_width(rv.take(w as int)) == w);
    }
    let mut out: Vec<char> = Vec::new();
    let mut x: usize = 0;
    assert(rv.take(0) =~= Seq::<Seq<char>>::empty());
    while x < w
        invariant
            x <= w <= row.len(),
            rv == row_views(row@),
            out@ == concat(rv.take(x as int)),
        decreases w - x,
    {
        push_str(&mut out, row[x].as_str());
        proof {
            assert(rv.take(x + 1).drop_last() =~= rv.take(x as int));
            assert(rv.take(x + 1).last() == rv[x as int]);
        }
        x += 1;
    }
    proof {
        lemma_row_width(rv);
    }
    string_of(&out)
}

// ---------------------------------------------------------------------------
// the protocol
// ---------------------------------------------------------------------------

/// What the driver does for one protocol line; the caller carries it out on
/// its app and, for every action but `Idle`, `Quit` and `Unknown`, emits a
/// frame afterwards.
pub enum StepAction {
    /// A blank line: nothing happens.
    Idle,
    /// `quit`: the loop stops.
    Quit,
    /// `snapshot`: emit the current frame.
    Snapshot,
    /// `resize <w> <h>`: when both numbers parse the session took the new
    /// size (at least 1 each) and the app is told of it; a frame follows
    /// either way.
    Resize { resized: bool },
    /// `key <name>` or `type <text>`: press these keys in turn, emit, and
    /// stop if the app asks to quit.
    Keys(Vec<KeySpec>),
    /// Anything else: report `! unknown action: <line>` and go on.
    Unknown(String),
}

/// A step's action, with its keys and line as plain values.
pub enum StepView {
    Idle,
    Quit,
    Snapshot,
    Resize(bool),
    Keys(Seq<KeySpec>),
    Unknown(Seq<char>),
}

pub open spec fn step_view(a: StepAction) -> StepView {
    match a {
        StepAction::Idle => StepView::Idle,
        StepAction::Quit => StepView::Quit,
        StepAction::Snapshot => StepView::Snapshot,
        StepAction::Resize { resized } => StepView::Resize(resized),
        StepAction::Keys(ks) => StepView::Keys(ks@),
        StepAction::Unknown(l) => StepView::Unknown(l@),
    }
}

/// `s` without its trailing `\r` and `\n` chars.
pub open spec fn strip_breaks(s: Seq<char>) -> Seq<char>
    decreases s.len(),
{
    if s.len() > 0 && (s.last() == '\r' || s.last() == '\n') {
        strip_breaks(s.drop_last())
    } else {
        s
    }
}

/// The length of the run of non-blank chars from `i` on.
pub open spec fn word_len(s: Seq<char>, i: int) -> int
    decreases s.len() - i,
{
    if i < 0 || i >= s.len() || is_ws(s[i]) {
        0
    } else {
        1 + word_len(s, i + 1)
    }
}

/// The first white-space separated word of `s` and what follows it.
pub open spec fn first_word(s: Seq<char>) -> Option<(Seq<char>, Seq<char>)> {
    let t = trim_start_seq(s);
    if t.len() == 0 {
        None
    } else {
        Some((t.take(word_len(t, 0)), t.skip(word_len(t, 0))))
    }
}

/// `str::parse::<u16>`.
pub open spec fn parse_u16_spec(s: Seq<char>) -> Option<u16> {
    match parse_u32_spec(s) {
        Some(v) => if v <= 65535 {
            Some(v as u16)
        } else {
            None
        },
        None => None,
    }
}

/// The size a `resize` line asks for: its first two words, both numbers.
pub open spec fn resize_spec(rest: Seq<char>) -> Option<(u16, u16)> {
    match first_word(rest) {
        Some((a, r1)) => match first_word(r1) {
            Some((b, _)) => match (parse_u16_spec(a), parse_u16_spec(b)) {
                (Some(w), Some(h)) => Some((w, h)),
                _ => None,
            },
            None => None,
        },
        None => None,
    }
}

pub open spec fn at_least_one(n: u16) -> u16 {
    if n == 0 {
        1
    } else {
        n
    }
}

/// Each char of `s` as a plain key press.
pub open spec fn char_keys(s: Seq<char>) -> Seq<KeySpec>
    decreases s.len(),
{
    if s.len() == 0 {
        seq![]
    } else {
        char_keys(s.drop_last()).push(KeySpec { code: KeyName::Char(s.last()), ctrl: false })
    }
}

/// The action for a protocol line.
pub open spec fn step_spec(line: Seq<char>) -> StepView {
    let l = strip_breaks(line);
    if l.len() == 0 {
        StepView::Idle
    } else if l == "quit"@ {
        StepView::Quit
    } else if l == "snapshot"@ {
        StepView::Snapshot
    } else if l.len() >= 7 && l.take(7) == "resize "@ {
        StepView::Resize(resize_spec(l.skip(7)) is Some)
    } else if l.len() >= 5 && l.take(5) == "type "@ {
        StepView::Keys(char_keys(l.skip(5)))
    } else if l.len() >= 4 && l.take(4) == "key "@ {
        StepView::Keys(seq![parse_key_spec(trim_seq(l.skip(4)))])
    } else {
        StepView::Unknown(l)
    }
}

fn first_word_exec(s: &Vec<char>) -> (r: Option<(Vec<char>, Vec<char>)>)
    ensures
        match r {
            Some((a, b)) => first_word(s@) == Some((a@, b@)),
            None => first_word(s@) is None,
        },
{
    let t = crate::text::trim_start(s);
    if t.len() == 0 {
        return None;
    }
    let mut k: usize = 0;
    while k < t.len() && !whitespace(t[k])
        invariant
            k <= t.len(),
            word_len(t@, 0) == k + word_len(t@, k as int),
        decreases t.len() - k,
    {
        k += 1;
    }
    let a = crate::text::slice(&t, 0, k);
    let b = crate::text::slice(&t, k, t.len());
    assert(a@ == t@.take(k as int));
    assert(b@ == t@.skip(k as int));
    Some((a, b))
}

fn parse_u16(s: &Vec<char>) -> (r: Option<u16>)
    ensures
        r == parse_u16_spec(s@),
{
    match parse_u32(s) {
        Some(v) => if v <= 65535 {
            Some(v as u16)
        } else {
            None
        },
        None => None,
    }
}

fn has_head(l: &Vec<char>, lit: &str) -> (b: bool)
    ensures
        b == (l@.len() >= lit@.len() && l@.take(lit@.len() as int) == lit@),
{
    let p = chars_of(lit);
    let b = crate::text::has_prefix(l, &p);
    proof {
        if b {
            assert(l@.subrange(0, p@.len() as int) == l@.take(p@.len() as int));
        }
        if l@.len() >= lit@.len() && l@.take(lit@.len() as int) == lit@ {
            assert(l@.subrange(0, p@.len() as int) == l@.take(p@.len() as int));
        }
    }
    b
}


// ---------------------------------------------------------------------------
// frames
// ---------------------------------------------------------------------------

/// The header line of a frame:
/// `=== frame <n> · <w>x<h><tag>[ · <state header>] ===`.
pub open spec fn frame_head(frame: nat, w: u16, h: u16, tag: Seq<char>, hdr: Seq<char>) -> Seq<char> {
    "=== frame "@ + dec_spec(frame) + " \u{b7} "@ + dec_spec(w as nat) + "x"@ + dec_spec(h as nat)
        + tag + (if hdr.len() > 0 {
        " \u{b7} "@ + hdr
    } else {
        seq![]
    }) + " ==="@
}

/// The changed lines of `body` against `prev` from line `i` on, as
/// `L<i>: <line>`.
pub open spec fn changed_from(prev: Seq<Seq<char>>, body: Seq<Seq<char>>, i: int) -> Seq<Seq<char>>
    decreases body.len() - i,
{
    if i < 0 || i >= body.len() {
        seq![]
    } else if i < prev.len() && prev[i] == body[i] {
        changed_from(prev, body, i + 1)
    } else {
        seq!["L"@ + dec_spec(i as nat) + ": "@ + body[i]] + changed_from(prev, body, i + 1)
    }
}

/// A frame's tag and body lines: in diff mode, the changed lines against a
/// previous body of the same length, else the whole body.
pub open spec fn frame_lines(diff: bool, prev: Option<Seq<Seq<char>>>, body: Seq<Seq<char>>) -> (
    Seq<char>,
    Seq<Seq<char>>,
) {
    if diff {
        match prev {
            Some(p) => if p.len() == body.len() {
                (" \u{b7} diff"@, changed_from(p, body, 0))
            } else {
                (" \u{b7} full"@, body)
            },
            None => (" \u{b7} full"@, body),
        }
    } else {
        (seq![], body)
    }
}

/// The lines of one framed snapshot.
pub open spec fn frame_spec(
    frame: nat,
    w: u16,
    h: u16,
    diff: bool,
    prev: Option<Seq<Seq<char>>>,
    body: Seq<Seq<char>>,
    hdr: Seq<char>,
) -> Seq<Seq<char>> {
    let (tag, lines) = frame_lines(diff, prev, body);
    seq![frame_head(frame, w, h, tag, hdr)] + lines + seq!["=== end ==="@]
}

fn push_line(out: &mut Vec<String>, v: &Vec<char>)
    ensures
        strs(final(out)@) == strs(old(out)@).push(v@),
{
    let ghost before = out@;
    out.push(string_of(v));
    assert(strs(out@) =~= strs(before).push(v@));
}

// ---------------------------------------------------------------------------
// the session
// ---------------------------------------------------------------------------

/// A stepwise driver session: the terminal size, the diff mode, the body of
/// the previous frame (in diff mode), and the frame counter.
pub struct Session {
    w: u16,
    h: u16,
    diff: bool,
    prev_body: Option<Vec<String>>,
    frame: usize,
}

impl Session {
    pub closed spec fn width(&self) -> u16 {
        self.w
    }

    pub closed spec fn height(&self) -> u16 {
        self.h
    }

    pub closed spec fn diff_mode(&self) -> bool {
        self.diff
    }

    pub closed spec fn prev(&self) -> Option<Seq<Seq<char>>> {
        match self.prev_body {
            Some(b) => Some(strs(b@)),
            None => None,
        }
    }

    pub closed spec fn frames(&self) -> nat {
        self.frame as nat
    }

    /// Start a session at the given size (each at least 1). No frame is
    /// emitted yet; the caller tells its app the size.
    pub fn new(opts: DriverOpts) -> (s: Self)
        ensures
            s.width() == at_least_one(opts.width),
            s.height() == at_least_one(opts.height),
            s.diff_mode() == opts.diff,
            s.prev() is None,
            s.frames() == 0,
    {
        Session {
            w: if opts.width == 0 { 1 } else { opts.width },
            h: if opts.height == 0 { 1 } else { opts.height },
            diff: opts.diff,
            prev_body: None,
            frame: 0,
        }
    }

    /// The current size.
    pub fn size(&self) -> (r: (u16, u16))
        ensures
            r == (self.width(), self.height()),
    {
        (self.w, self.h)
    }

    /// Decide one protocol line (trailing `\r` and `\n` ignored); a
    /// `resize` with two numbers takes the new size here.
    pub fn step(&mut self, line: &str) -> (a: StepAction)
        ensures
            step_view(a) == step_spec(line@),
            final(self).diff_mode() == old(self).diff_mode(),
            final(self).prev() == old(self).prev(),
            final(self).frames() == old(self).frames(),
            (match step_spec(line@) {
                StepView::Resize(true) => {
                    let wh = resize_spec(strip_breaks(line@).skip(7))->Some_0;
                    final(self).width() == at_least_one(wh.0) && final(self).height()
                        == at_least_one(wh.1)
                },
                _ => final(self).width() == old(self).width() && final(self).height() == old(
                    self,
                ).height(),
            }),
    {
        let mut l = chars_of(line);
        while l.len() > 0 && (l[l.len() - 1] == '\r' || l[l.len() - 1] == '\n')
            invariant
                strip_breaks(line@) == strip_breaks(l@),
            decreases l.len(),
        {
            l.pop();
        }
        proof {
            reveal_strlit("quit");
            reveal_strlit("snapshot");
            reveal_strlit("resize ");
            reveal_strlit("type ");
            reveal_strlit("key ");
        }
        if l.len() == 0 {
            return StepAction::Idle;
        }
        if crate::text::eq_str(&l, "quit") {
            return StepAction::Quit;
        }
        if crate::text::eq_str(&l, "snapshot") {
            return StepAction::Snapshot;
        }
        if has_head(&l, "resize ") {
            let rest = crate::text::slice(&l, 7, l.len());
            assert(rest@ == l@.skip(7));
            let mut resized = false;
            match first_word_exec(&rest) {
                Some((a, r1)) => match first_word_exec(&r1) {
                    Some((b, _)) => match (parse_u16(&a), parse_u16(&b)) {
                        (Some(w), Some(h)) => {
                            self.w = if w == 0 { 1 } else { w };
                            self.h = if h == 0 { 1 } else { h };
                            resized = true;
                        },
                        _ => {},
                    },
                    None => {},
                },
                None => {},
            }
            return StepAction::Resize { resized };
        }
        if has_head(&l, "type ") {
            let mut keys: Vec<KeySpec> = Vec::new();
            let mut i: usize = 5;
            assert(l@.subrange(5, 5) =~= Seq::<char>::empty());
            while i < l.len()
                invariant
                    5 <= i <= l.len(),
                    keys@ == char_keys(l@.subrange(5, i as int)),
                decreases l.len() - i,
            {
                keys.push(KeySpec { code: KeyName::Char(l[i]), ctrl: false });
                assert(l@.subrange(5, i + 1).drop_last() =~= l@.subrange(5, i as int));
                assert(l@.subrange(5, i + 1).last() == l@[i as int]);
                i += 1;
            }
            assert(l@.subrange(5, l.len() as int) =~= l@.skip(5));
            return StepAction::Keys(keys);
        }
        if has_head(&l, "key ") {
            let rest = crate::text::slice(&l, 4, l.len());
            assert(rest@ == l@.skip(4));
            let name = trim(&rest);
            let k = parse_key(string_of(&name).as_str());
            let mut keys: Vec<KeySpec> = Vec::new();
            keys.push(k);
            assert(keys@ =~= seq![k]);
            return StepAction::Keys(keys);
        }
        StepAction::Unknown(string_of(&l))
    }
    /// Frame the encoded `body` of the current render, with the app's state
    /// header (left out when empty): the header line, the body lines (in
    /// diff mode only the changed ones once a previous body of the same
    /// length exists), and `=== end ===`. Counts the frame, and in diff mode
    /// keeps `body` to compare the next one with.
    pub fn emit(&mut self, body: Vec<String>, header: &str) -> (r: Vec<String>)
        requires
            old(self).frames() < usize::MAX,
        ensures
            strs(r@) == frame_spec(
                old(self).frames(),
                old(self).width(),
                old(self).height(),
                old(self).diff_mode(),
                old(self).prev(),
                strs(body@),
                header@,
            ),
            final(self).frames() == old(self).frames() + 1,
            final(self).width() == old(self).width(),
            final(self).height() == old(self).height(),
            final(self).diff_mode() == old(self).diff_mode(),
            final(self).prev() == if old(self).diff_mode() {
                Some(strs(body@))
            } else {
                old(self).prev()
            },
    {
        let ghost bv = strs(body@);
        let ghost prev0 = self.prev();
        let mut tag: Vec<char> = Vec::new();
        let mut lines: Vec<String> = Vec::new();
        let mut whole = true;
        if self.diff {
            match &self.prev_body {
                Some(prev) => {
                    if prev.len() == body.len() {
                        whole = false;
                        tag = chars_of(" \u{b7} diff");
                        let ghost pv = strs(prev@);
                        let mut i: usize = 0;
                        assert(strs(lines@) =~= Seq::<Seq<char>>::empty());
                        while i < body.len()
                            invariant
                                i <= body.len(),
                                prev.len() == body.len(),
                                pv == strs(prev@),
                                bv == strs(body@),
                                strs(lines@) + changed_from(pv, bv, i as int) == changed_from(pv, bv, 0),
                            decreases body.len() - i,
                        {
                            let ghost before = strs(lines@);
                            if !crate::text::same(prev[i].as_str(), body[i].as_str()) {
                                let mut l = chars_of("L");
                                let d = dec(i as u64);
                                push_all(&mut l, &d);
                                push_str(&mut l, ": ");
                                push_str(&mut l, body[i].as_str());
                                proof {
                                    reveal_strlit("L");
                                    reveal_strlit(": ");
                                }
                                push_line(&mut lines, &l);
                                assert(l@ == "L"@ + dec_spec(i as nat) + ": "@ + bv[i as int]);
                                assert(before + changed_from(pv, bv, i as int) =~= strs(lines@) + changed_from(pv, bv, i + 1));
                            } else {
                                assert(pv[i as int] == bv[i as int]);
                            }
                            i += 1;
                        }
                        assert(strs(lines@) + Seq::<Seq<char>>::empty() =~= strs(lines@));
                    }
                },
                None => {},
            }
            if whole {
                tag = chars_of(" \u{b7} full");
            }
        }
        if whole {
            let mut i: usize = 0;
            assert(strs(lines@) =~= bv.take(0));
            while i < body.len()
                invariant
                    i <= body.len(),
                    bv == strs(body@),
                    strs(lines@) == bv.take(i as int),
                decreases body.len() - i,
            {
                let ghost before = strs(lines@);
                lines.push(crate::text::owned(body[i].as_str()));
                assert(bv[i as int] == body@[i as int]@);
                assert(strs(lines@) =~= before.push(bv[i as int]));
                assert(bv.take(i + 1) =~= bv.take(i as int).push(bv[i as int]));
                i += 1;
            }
            assert(bv.take(body.len() as int) =~= bv);
        }
        let ghost fl = frame_lines(self.diff, prev0, bv);
        assert(tag@ == fl.0 && strs(lines@) == fl.1);
        let mut head = chars_of("=== frame ");
        push_all(&mut head, &dec(self.frame as u64));
        push_str(&mut head, " \u{b7} ");
        push_all(&mut head, &dec(self.w as u64));
        push_str(&mut head, "x");
        push_all(&mut head, &dec(self.h as u64));
        push_all(&mut head, &tag);
        let hv = chars_of(header);
        if hv.len() > 0 {
            push_str(&mut head, " \u{b7} ");
            push_all(&mut head, &hv);
        }
        push_str(&mut head, " ===");
        assert(head@ == frame_head(self.frame as nat, self.w, self.h, tag@, header@));
        let mut out: Vec<String> = Vec::new();
        push_line(&mut out, &head);
        let mut i: usize = 0;
        let ghost o0 = strs(out@);
        while i < lines.len()
            invariant
                i <= lines.len(),
                strs(out@) == o0 + strs(lines@).take(i as int),
            decreases lines.len() - i,
        {
            let ghost before = strs(out@);
            out.push(crate::text::owned(lines[i].as_str()));
            assert(strs(lines@)[i as int] == lines@[i as int]@);
            assert(strs(out@) =~= before.push(strs(lines@)[i as int]));
            assert(strs(lines@).take(i + 1) =~= strs(lines@).take(i as int).push(strs(lines@)[i as int]));
            assert(strs(out@) =~= o0 + strs(lines@).take(i + 1));
            i += 1;
        }
        let end = chars_of("=== end ===");
        push_line(&mut out, &end);
        assert(strs(lines@).take(lines.len() as int) =~= strs(lines@));
        assert(strs(out@) =~= frame_spec(self.frame as nat, self.w, self.h, self.diff, prev0, bv, header@));
        if self.diff {
            self.prev_body = Some(body);
        }
        self.frame = self.frame + 1;
        out
    }
}

} // verus!
