//! A line-at-a-time markdown highlighter for the detail pane and the editor.
//! Given logical lines it emits styled char spans; fenced code blocks are
//! tracked across lines by [`Highlighter`].
//!
//! Spans are in char coordinates within one logical line. Runs never overlap
//! and are emitted left to right; gaps between them keep the caller's base
//! style.

use vstd::prelude::*;
use crate::text::{is_ws, whitespace, is_digit, digit, chars_of, split_char, split_seq, first_from, lemma_first_from};
use crate::farm::names::{alphanumeric, is_alphanumeric};

verus! {

/// The style a span is drawn in.
#[derive(Debug, Clone, Copy, PartialEq, Eq, Structural)]
pub enum MdStyle {
    Heading,
    Code,
    Marker,
    Bold,
    Italic,
    Bullet,
    Quote,
}

/// A styled run of characters within one logical line (`start` is a char
/// index, `len` a char count).
#[derive(Debug, Clone, Copy, PartialEq, Eq, Structural)]
pub struct MdSpan {
    pub start: usize,
    pub len: usize,
    pub style: MdStyle,
}

pub open spec fn span_view(s: MdSpan) -> (int, int, MdStyle) {
    (s.start as int, s.len as int, s.style)
}

pub open spec fn spans_view(v: Seq<MdSpan>) -> Seq<(int, int, MdStyle)> {
    v.map_values(|s: MdSpan| span_view(s))
}

// ---------------------------------------------------------------------------
// line shapes
// ---------------------------------------------------------------------------

/// The length of the run of `c` that starts at `i`.
pub open spec fn run_len(s: Seq<char>, i: int, c: char) -> int
    decreases s.len() - i,
{
    if i < 0 || i >= s.len() || s[i] != c {
        0
    } else {
        1 + run_len(s, i + 1, c)
    }
}

/// The number of leading spaces.
pub open spec fn indent_spec(s: Seq<char>) -> int {
    run_len(s, 0, ' ')
}

/// The length of the run of ASCII digits that starts at `i`.
pub open spec fn digit_run(s: Seq<char>, i: int) -> int
    decreases s.len() - i,
{
    if i < 0 || i >= s.len() || !is_digit(s[i]) {
        0
    } else {
        1 + digit_run(s, i + 1)
    }
}

/// Every char from `i` on is white space.
pub open spec fn blank_from(s: Seq<char>, i: int) -> bool {
    forall|j: int| i <= j < s.len() ==> is_ws(#[trigger] s[j])
}

/// A code-fence opener: 3 or more backticks or tildes after the indent; the
/// fence char and the run's length.
pub open spec fn opening_fence_spec(s: Seq<char>) -> Option<(char, int)> {
    let i = indent_spec(s);
    if i < s.len() && (s[i] == '`' || s[i] == '~') && run_len(s, i, s[i]) >= 3 {
        Some((s[i], run_len(s, i, s[i])))
    } else {
        None
    }
}

/// A closing fence: at least `flen` of the opener's char after the indent,
/// then only white space.
pub open spec fn closing_fence_spec(s: Seq<char>, fc: char, flen: int) -> bool {
    let i = indent_spec(s);
    run_len(s, i, fc) >= flen && blank_from(s, i + run_len(s, i, fc))
}

/// An ATX heading: 1 to 6 `#` after the indent, then a space or the end.
pub open spec fn heading_spec(s: Seq<char>) -> bool {
    let i = indent_spec(s);
    let h = run_len(s, i, '#');
    1 <= h <= 6 && (i + h >= s.len() || s[i + h] == ' ')
}

pub open spec fn blockquote_spec(s: Seq<char>) -> bool {
    let i = indent_spec(s);
    i < s.len() && s[i] == '>'
}

/// A list item marker: one past the bullet or number token, and where the
/// content starts (past the space after it).
pub open spec fn list_marker_spec(s: Seq<char>) -> Option<(int, int)> {
    let i = indent_spec(s);
    if i >= s.len() {
        None
    } else if (s[i] == '-' || s[i] == '*' || s[i] == '+') && i + 1 < s.len() && s[i + 1] == ' ' {
        Some((i + 1, i + 2))
    } else if is_digit(s[i]) {
        let j = i + digit_run(s, i);
        if j < s.len() && j + 1 < s.len() && (s[j] == '.' || s[j] == ')') && s[j + 1] == ' ' {
            Some((j + 1, j + 2))
        } else {
            None
        }
    } else {
        None
    }
}

// ---------------------------------------------------------------------------
// inline code and emphasis
// ---------------------------------------------------------------------------

/// `_` emphasis must not close right before an alphanumeric char.
pub open spec fn right_flank_ok(s: Seq<char>, close: int, c: char, dl: int) -> bool {
    c != '_' || close + dl >= s.len() || !alphanumeric(s[close + dl])
}

/// The search for a closing run of at least `dl` copies of `c`, from `i` on,
/// for an opener at `open`: the run must follow a non-blank char, leave the
/// emphasis non-empty, and (for `_`) not run into a word.
pub open spec fn emph_scan(s: Seq<char>, open: int, c: char, dl: int, i: int) -> Option<int>
    decreases s.len() - i,
{
    if i < 1 || i >= s.len() {
        None
    } else if s[i] == c {
        let run = run_len(s, i, c);
        if run >= dl && !is_ws(s[i - 1]) && i > open + dl && right_flank_ok(s, i, c, dl) {
            Some(i)
        } else if 0 < run <= s.len() - i {
            emph_scan(s, open, c, dl, i + run)
        } else {
            None
        }
    } else {
        emph_scan(s, open, c, dl, i + 1)
    }
}

/// Where the emphasis of `dl` copies of `c` opening at `open` closes. The
/// char just inside the opener must not be white space, and `_` opens only
/// at a left word boundary.
pub open spec fn find_emphasis_spec(s: Seq<char>, open: int, c: char, dl: int) -> Option<int> {
    if open < 0 || open + dl >= s.len() {
        None
    } else if is_ws(s[open + dl]) {
        None
    } else if c == '_' && open >= 1 && alphanumeric(s[open - 1]) {
        None
    } else {
        emph_scan(s, open, c, dl, open + dl)
    }
}

/// The emphasis delimiter length at `i`: 2 for a doubled char, else 1.
pub open spec fn delim_len(s: Seq<char>, i: int) -> int {
    if i + 1 < s.len() && s[i + 1] == s[i] {
        2
    } else {
        1
    }
}

/// The spans of code and emphasis in `s` from `i` on. Unmatched delimiters
/// stay unstyled; emphasis delimiters are dimmed and the text between them
/// carries the emphasis.
pub open spec fn inline_from(s: Seq<char>, i: int) -> Seq<(int, int, MdStyle)>
    decreases s.len() - i,
{
    if i < 0 || i >= s.len() {
        seq![]
    } else if s[i] == '`' {
        match first_from(s, seq!['`'], i + 1) {
            Some(close) => if i < close < s.len() {
                seq![(i, close - i + 1, MdStyle::Code)] + inline_from(s, close + 1)
            } else {
                seq![]
            },
            None => inline_from(s, i + 1),
        }
    } else if s[i] == '*' || s[i] == '_' {
        let dl = delim_len(s, i);
        match find_emphasis_spec(s, i, s[i], dl) {
            Some(close) => if i + dl <= close <= s.len() - dl {
                seq![(i, dl, MdStyle::Marker)] + (if close > i + dl {
                    seq![
                        (i + dl, close - i - dl, if dl == 2 {
                            MdStyle::Bold
                        } else {
                            MdStyle::Italic
                        }),
                    ]
                } else {
                    seq![]
                }) + seq![(close, dl, MdStyle::Marker)] + inline_from(s, close + dl)
            } else {
                seq![]
            },
            None => inline_from(s, i + 1),
        }
    } else {
        inline_from(s, i + 1)
    }
}

/// The whole line in one style.
pub open spec fn whole_spec(s: Seq<char>, st: MdStyle) -> Seq<(int, int, MdStyle)> {
    seq![(0, s.len() as int, st)]
}

/// One line's spans and the fence state after it, given the fence state
/// before it (`Some((fence char, run length))` inside a fenced block).
pub open spec fn line_spec(fence: Option<(char, int)>, s: Seq<char>) -> (
    Seq<(int, int, MdStyle)>,
    Option<(char, int)>,
) {
    if s.len() == 0 {
        (seq![], fence)
    } else {
        match fence {
            Some((fc, flen)) => if closing_fence_spec(s, fc, flen) {
                (whole_spec(s, MdStyle::Marker), None)
            } else {
                (whole_spec(s, MdStyle::Code), fence)
            },
            None => match opening_fence_spec(s) {
                Some(f) => (whole_spec(s, MdStyle::Marker), Some(f)),
                None => if heading_spec(s) {
                    (whole_spec(s, MdStyle::Heading), None)
                } else if blockquote_spec(s) {
                    (whole_spec(s, MdStyle::Quote), None)
                } else {
                    match list_marker_spec(s) {
                        Some((me, cs)) => (
                            seq![(indent_spec(s), me - indent_spec(s), MdStyle::Bullet)]
                                + inline_from(s, cs),
                            None,
                        ),
                        None => (inline_from(s, 0), None),
                    }
                },
            },
        }
    }
}

/// Spans that lie left to right from `lo` on inside a line of `n` chars:
/// none empty, each starting at or after the end of the one before.
pub open spec fn spans_ordered(sp: Seq<(int, int, MdStyle)>, lo: int, n: int) -> bool
    decreases sp.len(),
{
    if sp.len() == 0 {
        lo <= n
    } else {
        lo <= sp[0].0 && sp[0].1 > 0 && spans_ordered(sp.drop_first(), sp[0].0 + sp[0].1, n)
    }
}

// ---------------------------------------------------------------------------
// the spans lie in order
// ---------------------------------------------------------------------------

proof fn lemma_ordered_weaken(sp: Seq<(int, int, MdStyle)>, lo: int, lo2: int, n: int)
    requires
        lo <= lo2,
        spans_ordered(sp, lo2, n),
    ensures
        spans_ordered(sp, lo, n),
{
}

proof fn lemma_run_len(s: Seq<char>, i: int, c: char)
    requires
        0 <= i <= s.len(),
    ensures
        0 <= run_len(s, i, c) <= s.len() - i,
    decreases s.len() - i,
{
    if i < s.len() && s[i] == c {
        lemma_run_len(s, i + 1, c);
    }
}

proof fn lemma_digit_run(s: Seq<char>, i: int)
    requires
        0 <= i <= s.len(),
    ensures
        0 <= digit_run(s, i) <= s.len() - i,
    decreases s.len() - i,
{
    if i < s.len() && is_digit(s[i]) {
        lemma_digit_run(s, i + 1);
    }
}

proof fn lemma_inline_ordered(s: Seq<char>, i: int)
    requires
        0 <= i <= s.len(),
    ensures
        spans_ordered(inline_from(s, i), i, s.len() as int),
    decreases s.len() - i,
{
    let n = s.len() as int;
    if i < n {
        if s[i] == '`' {
            match first_from(s, seq!['`'], i + 1) {
                Some(close) => if i < close < n {
                    lemma_inline_ordered(s, close + 1);
                    let rest = inline_from(s, close + 1);
                    assert((seq![(i, close - i + 1, MdStyle::Code)] + rest).drop_first() =~= rest);
                },
                None => {
                    lemma_inline_ordered(s, i + 1);
                },
            }
        } else if s[i] == '*' || s[i] == '_' {
            let dl = delim_len(s, i);
            match find_emphasis_spec(s, i, s[i], dl) {
                Some(close) => if i + dl <= close <= n - dl {
                    lemma_inline_ordered(s, close + dl);
                    let rest = inline_from(s, close + dl);
                    let st = if dl == 2 {
                        MdStyle::Bold
                    } else {
                        MdStyle::Italic
                    };
                    let mid = if close > i + dl {
                        seq![(i + dl, close - i - dl, st)]
                    } else {
                        seq![]
                    };
                    let tail = seq![(close, dl, MdStyle::Marker)] + rest;
                    assert(tail.drop_first() =~= rest);
                    assert(spans_ordered(tail, close, n));
                    let t2 = mid + tail;
                    if close > i + dl {
                        assert(t2.drop_first() =~= tail);
                    } else {
                        assert(t2 =~= tail);
                    }
                    assert(spans_ordered(t2, i + dl, n));
                    let all = seq![(i, dl, MdStyle::Marker)] + t2;
                    assert(all.drop_first() =~= t2);
                    assert(inline_from(s, i) == seq![(i, dl, MdStyle::Marker)] + mid + tail);
                    assert(seq![(i, dl, MdStyle::Marker)] + mid + tail =~= all);
                },
                None => {
                    lemma_inline_ordered(s, i + 1);
                },
            }
        } else {
            lemma_inline_ordered(s, i + 1);
        }
    }
}

/// A line's spans lie left to right inside it, none empty, none overlapping.
proof fn lemma_line_ordered(fence: Option<(char, int)>, s: Seq<char>)
    ensures
        spans_ordered(line_spec(fence, s).0, 0, s.len() as int),
{
    let n = s.len() as int;
    if n > 0 {
        assert forall|st: MdStyle| spans_ordered(#[trigger] whole_spec(s, st), 0, n) by {
            assert(whole_spec(s, st).drop_first() =~= Seq::<(int, int, MdStyle)>::empty());
            assert(spans_ordered(Seq::<(int, int, MdStyle)>::empty(), n, n));
            assert(whole_spec(s, st)[0] == (0int, n, st));
        }
        lemma_inline_ordered(s, 0);
        match list_marker_spec(s) {
            Some((me, cs)) => {
                let ind = indent_spec(s);
                lemma_run_len(s, 0, ' ');
                lemma_digit_run(s, ind);
                lemma_inline_ordered(s, cs);
                lemma_ordered_weaken(inline_from(s, cs), me, cs, n);
                let all = seq![(ind, me - ind, MdStyle::Bullet)] + inline_from(s, cs);
                assert(all.drop_first() =~= inline_from(s, cs));
            },
            None => {},
        }
    }
}

// ---------------------------------------------------------------------------
// executable scanning
// ---------------------------------------------------------------------------

fn run_len_exec(s: &Vec<char>, i: usize, c: char) -> (r: usize)
    requires
        i <= s.len(),
    ensures
        r as int == run_len(s@, i as int, c),
        i + r <= s.len(),
{
    let mut j = i;
    while j < s.len() && s[j] == c
        invariant
            i <= j <= s.len(),
            run_len(s@, i as int, c) == (j - i) + run_len(s@, j as int, c),
        decreases s.len() - j,
    {
        j += 1;
    }
    j - i
}

fn indent(s: &Vec<char>) -> (r: usize)
    ensures
        r as int == indent_spec(s@),
        r <= s.len(),
{
    run_len_exec(s, 0, ' ')
}

fn digit_run_exec(s: &Vec<char>, i: usize) -> (r: usize)
    requires
        i <= s.len(),
    ensures
        r as int == digit_run(s@, i as int),
        i + r <= s.len(),
{
    let mut j = i;
    while j < s.len() && digit(s[j])
        invariant
            i <= j <= s.len(),
            digit_run(s@, i as int) == (j - i) + digit_run(s@, j as int),
        decreases s.len() - j,
    {
        j += 1;
    }
    j - i
}

fn blank_from_exec(s: &Vec<char>, i: usize) -> (b: bool)
    ensures
        b == blank_from(s@, i as int),
{
    let mut j = i;
    while j < s.len()
        invariant
            i <= j,
            forall|k: int| i <= k < j && k < s.len() ==> is_ws(#[trigger] s@[k]),
        decreases s.len() - j,
    {
        if !whitespace(s[j]) {
            return false;
        }
        j += 1;
    }
    true
}

fn opening_fence(s: &Vec<char>) -> (r: Option<(char, usize)>)
    ensures
        match r {
            Some((c, k)) => opening_fence_spec(s@) == Some((c, k as int)),
            None => opening_fence_spec(s@) is None,
        },
{
    let i = indent(s);
    if i >= s.len() {
        return None;
    }
    let fc = s[i];
    if fc != '`' && fc != '~' {
        return None;
    }
    let run = run_len_exec(s, i, fc);
    if run >= 3 {
        Some((fc, run))
    } else {
        None
    }
}

fn closing_fence(s: &Vec<char>, fc: char, flen: usize) -> (b: bool)
    ensures
        b == closing_fence_spec(s@, fc, flen as int),
{
    let i = indent(s);
    let run = run_len_exec(s, i, fc);
    run >= flen && blank_from_exec(s, i + run)
}

fn is_heading(s: &Vec<char>) -> (b: bool)
    ensures
        b == heading_spec(s@),
{
    let i = indent(s);
    let h = run_len_exec(s, i, '#');
    1 <= h && h <= 6 && (i + h >= s.len() || s[i + h] == ' ')
}

fn is_blockquote(s: &Vec<char>) -> (b: bool)
    ensures
        b == blockquote_spec(s@),
{
    let i = indent(s);
    i < s.len() && s[i] == '>'
}

fn list_marker(s: &Vec<char>) -> (r: Option<(usize, usize)>)
    ensures
        match r {
            Some((a, b)) => list_marker_spec(s@) == Some((a as int, b as int)),
            None => list_marker_spec(s@) is None,
        },
{
    let i = indent(s);
    if i >= s.len() {
        return None;
    }
    let c = s[i];
    if (c == '-' || c == '*' || c == '+') && i + 1 < s.len() && s[i + 1] == ' ' {
        return Some((i + 1, i + 2));
    }
    if digit(c) {
        let j = i + digit_run_exec(s, i);
        if j < s.len() && j + 1 < s.len() && (s[j] == '.' || s[j] == ')') && s[j + 1] == ' ' {
            return Some((j + 1, j + 2));
        }
    }
    None
}

fn find_emphasis(s: &Vec<char>, open: usize, c: char, dl: usize) -> (r: Option<usize>)
    requires
        open < s.len(),
        1 <= dl <= 2,
    ensures
        match r {
            Some(k) => find_emphasis_spec(s@, open as int, c, dl as int) == Some(k as int) && open
                + dl <= k && k + dl <= s.len(),
            None => find_emphasis_spec(s@, open as int, c, dl as int) is None,
        },
{
    let n = s.len();
    if dl >= n - open {
        return None;
    }
    if whitespace(s[open + dl]) {
        return None;
    }
    if c == '_' && open >= 1 && is_alphanumeric(s[open - 1]) {
        return None;
    }
    let mut i = open + dl;
    while i < n
        invariant
            open + dl <= i <= n,
            n == s.len(),
            1 <= dl <= 2,
            find_emphasis_spec(s@, open as int, c, dl as int) == emph_scan(
                s@,
                open as int,
                c,
                dl as int,
                i as int,
            ),
        decreases n - i,
    {
        if s[i] == c {
            let run = run_len_exec(s, i, c);
            proof {
                lemma_run_len(s@, i + 1, c);
            }
            assert(run >= 1);
            let close = i;
            let inner_ok = !whitespace(s[close - 1]) && close > open + dl;
            let right_ok = c != '_' || dl >= n - close || !is_alphanumeric(s[close + dl]);
            if run >= dl && inner_ok && right_ok {
                return Some(close);
            }
            i += run;
        } else {
            i += 1;
        }
    }
    None
}

fn push_span(spans: &mut Vec<MdSpan>, start: usize, len: usize, style: MdStyle)
    ensures
        spans_view(final(spans)@) == spans_view(old(spans)@).push((start as int, len as int, style)),
{
    let ghost before = spans@;
    spans.push(MdSpan { start, len, style });
    assert(spans_view(spans@) =~= spans_view(before).push((start as int, len as int, style)));
}

/// Inline scan of `s` from `from` on for code spans and emphasis.
fn inline(s: &Vec<char>, from: usize) -> (spans: Vec<MdSpan>)
    requires
        from <= s.len(),
    ensures
        spans_view(spans@) == inline_from(s@, from as int),
{
    let n = s.len();
    let mut spans: Vec<MdSpan> = Vec::new();
    let mut i = from;
    let mut tick: Vec<char> = Vec::new();
    tick.push('`');
    assert(tick@ =~= seq!['`']);
    assert(spans_view(spans@) =~= Seq::<(int, int, MdStyle)>::empty());
    while i < n
        invariant
            from <= i <= n,
            n == s.len(),
            tick@ == seq!['`'],
            spans_view(spans@) + inline_from(s@, i as int) == inline_from(s@, from as int),
        decreases n - i,
    {
        let ghost before = spans_view(spans@);
        let c = s[i];
        let mut next = i + 1;
        if c == '`' {
            let found = crate::text::find_from(s, &tick, i + 1);
            proof {
                lemma_first_from(s@, seq!['`'], i + 1);
            }
            match found {
                Some(close) => {
                    push_span(&mut spans, i, close - i + 1, MdStyle::Code);
                    next = close + 1;
                    assert(before + inline_from(s@, i as int) =~= spans_view(spans@) + inline_from(
                        s@,
                        next as int,
                    ));
                },
                None => {},
            }
        } else if c == '*' || c == '_' {
            let double = i + 1 < n && s[i + 1] == c;
            let dl: usize = if double {
                2
            } else {
                1
            };
            assert(dl as int == delim_len(s@, i as int));
            match find_emphasis(s, i, c, dl) {
                Some(close) => {
                    push_span(&mut spans, i, dl, MdStyle::Marker);
                    let content_start = i + dl;
                    let st = if double {
                        MdStyle::Bold
                    } else {
                        MdStyle::Italic
                    };
                    let ghost mid = spans_view(spans@);
                    if close > content_start {
                        push_span(&mut spans, content_start, close - content_start, st);
                    }
                    let ghost mid2 = spans_view(spans@);
                    push_span(&mut spans, close, dl, MdStyle::Marker);
                    next = close + dl;
                    proof {
                        let m = if close > i + dl {
                            seq![(i + dl, close - i - dl, st)]
                        } else {
                            seq![]
                        };
                        assert(mid2 =~= before.push((i as int, dl as int, MdStyle::Marker)) + m);
                        assert(inline_from(s@, i as int) == seq![(i as int, dl as int, MdStyle::Marker)]
                            + m + seq![(close as int, dl as int, MdStyle::Marker)] + inline_from(
                            s@,
                            next as int,
                        ));
                        assert(before + inline_from(s@, i as int) =~= spans_view(spans@)
                            + inline_from(s@, next as int));
                    }
                },
                None => {},
            }
        }
        i = next;
    }
    assert(spans_view(spans@) + Seq::<(int, int, MdStyle)>::empty() =~= spans_view(spans@));
    spans
}

// ---------------------------------------------------------------------------
// the highlighter
// ---------------------------------------------------------------------------

/// Stateful, line-at-a-time markdown highlighter. Feed it logical lines in
/// order through [`Highlighter::line`]; it carries the fenced-code-block
/// state, so a fenced block colors every line until its closing fence.
pub struct Highlighter {
    /// `Some((fence char, run length))` while inside a fenced code block.
    fence: Option<(char, usize)>,
}

fn whole(s: &Vec<char>, style: MdStyle) -> (r: Vec<MdSpan>)
    ensures
        spans_view(r@) == whole_spec(s@, style),
{
    let mut r: Vec<MdSpan> = Vec::new();
    push_span(&mut r, 0, s.len(), style);
    assert(spans_view(r@) =~= whole_spec(s@, style));
    r
}

impl Highlighter {
    /// The fence state: `Some((fence char, run length))` inside a fenced
    /// code block.
    pub closed spec fn state(&self) -> Option<(char, int)> {
        match self.fence {
            Some((c, n)) => Some((c, n as int)),
            None => None,
        }
    }

    pub fn new() -> (h: Self)
        ensures
            h.state() is None,
    {
        Highlighter { fence: None }
    }

    /// Highlight one logical line, advancing the block state. The spans lie
    /// left to right inside the line, none empty and none overlapping.
    pub fn line(&mut self, text: &str) -> (r: Vec<MdSpan>)
        ensures
            (spans_view(r@), final(self).state()) == line_spec(old(self).state(), text@),
            spans_ordered(spans_view(r@), 0, text@.len() as int),
    {
        proof {
            lemma_line_ordered(self.state(), text@);
        }
        let chars = chars_of(text);
        if chars.len() == 0 {
            let r: Vec<MdSpan> = Vec::new();
            assert(spans_view(r@) =~= Seq::<(int, int, MdStyle)>::empty());
            return r;
        }
        match self.fence {
            Some((fc, flen)) => {
                if closing_fence(&chars, fc, flen) {
                    self.fence = None;
                    return whole(&chars, MdStyle::Marker);
                }
                return whole(&chars, MdStyle::Code);
            },
            None => {},
        }
        match opening_fence(&chars) {
            Some((fc, flen)) => {
                self.fence = Some((fc, flen));
                return whole(&chars, MdStyle::Marker);
            },
            None => {},
        }
        if is_heading(&chars) {
            return whole(&chars, MdStyle::Heading);
        }
        if is_blockquote(&chars) {
            return whole(&chars, MdStyle::Quote);
        }
        match list_marker(&chars) {
            Some((marker_end, content_start)) => {
                let ind = indent(&chars);
                proof {
                    lemma_digit_run(chars@, ind as int);
                }
                let mut spans: Vec<MdSpan> = Vec::new();
                push_span(&mut spans, ind, marker_end - ind, MdStyle::Bullet);
                let rest = inline(&chars, content_start);
                let ghost head = spans_view(spans@);
                let mut k: usize = 0;
                while k < rest.len()
                    invariant
                        k <= rest.len(),
                        spans_view(spans@) == head + spans_view(rest@).take(k as int),
                    decreases rest.len() - k,
                {
                    push_span(&mut spans, rest[k].start, rest[k].len, rest[k].style);
                    assert(spans_view(rest@).take(k + 1) =~= spans_view(rest@).take(k as int).push(
                        span_view(rest@[k as int]),
                    ));
                    k += 1;
                }
                assert(spans_view(rest@).take(rest.len() as int) =~= spans_view(rest@));
                spans
            },
            None => inline(&chars, 0),
        }
    }
}

impl Default for Highlighter {
    fn default() -> (h: Self)
        ensures
            h.state() is None,
    {
        Highlighter::new()
    }
}

/// The spans of each line in turn, from the fence state `fence` on.
pub open spec fn highlight_from(fence: Option<(char, int)>, ls: Seq<Seq<char>>) -> Seq<
    Seq<(int, int, MdStyle)>,
>
    decreases ls.len(),
{
    if ls.len() == 0 {
        seq![]
    } else {
        let (sp, next) = line_spec(fence, ls[0]);
        seq![sp] + highlight_from(next, ls.drop_first())
    }
}

/// Highlight a whole multi-line text: the spans of each of its `\n`
/// separated lines.
pub fn highlight(text: &str) -> (r: Vec<Vec<MdSpan>>)
    ensures
        r@.map_values(|v: Vec<MdSpan>| spans_view(v@)) == highlight_from(
            None,
            split_seq(text@, '\n'),
        ),
{
    let chars = chars_of(text);
    let ls = split_char(&chars, '\n');
    let ghost lv = ls@.map_values(|p: Vec<char>| p@);
    let mut hl = Highlighter::new();
    let mut out: Vec<Vec<MdSpan>> = Vec::new();
    let mut i: usize = 0;
    assert(lv.skip(0) =~= lv);
    assert(out@.map_values(|v: Vec<MdSpan>| spans_view(v@)) =~= Seq::<Seq<(int, int, MdStyle)>>::empty());
    while i < ls.len()
        invariant
            i <= ls.len(),
            lv == ls@.map_values(|p: Vec<char>| p@),
            lv == split_seq(text@, '\n'),
            out@.map_values(|v: Vec<MdSpan>| spans_view(v@)) + highlight_from(
                hl.state(),
                lv.skip(i as int),
            ) == highlight_from(None, lv),
        decreases ls.len() - i,
    {
        let line_text = crate::text::string_of(&ls[i]);
        let ghost st = hl.state();
        let ghost before = out@.map_values(|v: Vec<MdSpan>| spans_view(v@));
        let spans = hl.line(line_text.as_str());
        proof {
            assert(lv.skip(i as int)[0] == lv[i as int]);
            assert(lv.skip(i as int).drop_first() =~= lv.skip(i + 1));
        }
        out.push(spans);
        assert(out@.map_values(|v: Vec<MdSpan>| spans_view(v@)) =~= before.push(line_spec(st, lv[i as int]).0));
        i += 1;
    }
    assert(lv.skip(ls.len() as int) =~= Seq::<Seq<char>>::empty());
    assert(out@.map_values(|v: Vec<MdSpan>| spans_view(v@)) + Seq::<Seq<(int, int, MdStyle)>>::empty()
        =~= out@.map_values(|v: Vec<MdSpan>| spans_view(v@)));
    out
}

} // verus!
