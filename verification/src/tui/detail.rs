//! The detail pane's model: a task turned into display lines whose parent,
//! dependencies, dependents, children, source, and body references carry
//! link targets, and the flat jump list over those targets.

use vstd::prelude::*;
use crate::text::{
    chars_of, string_of, same, eq, push_str, push_all, copy_chars, trim_str, trim_seq, lines,
    lines_seq, join, join_seq, is_ws, whitespace, starts_with, has_prefix, slice, is_lower, is_digit,
    seq_lt, lt, occurs_at, pad_right, padded_to,
};
use crate::model::{Status, Task, TaskView, tviews, strs, status_emoji, status_dir};
use crate::refs::{unwikilinked, strip_wikilinks};
use crate::store::write::{dec, dec_spec};
use crate::filter::has_string;

verus! {

/// Where a link points.
#[derive(Clone, PartialEq, Debug)]
pub enum Target {
    Task(String),
    Url(String),
    /// A markdown image link `![alt](path)`: an attached artifact.
    Artifact(String),
}

pub enum TargetView {
    Task(Seq<char>),
    Url(Seq<char>),
    Artifact(Seq<char>),
}

pub open spec fn target_view(t: Target) -> TargetView {
    match t {
        Target::Task(s) => TargetView::Task(s@),
        Target::Url(s) => TargetView::Url(s@),
        Target::Artifact(s) => TargetView::Artifact(s@),
    }
}

/// Styling hint for a detail line.
#[derive(Clone, Copy, PartialEq, Eq, Debug, Structural)]
pub enum Kind {
    Field,
    Section,
    Body,
    Empty,
}

/// One display line plus the link spans it carries (column and length in
/// chars).
pub struct DLine {
    pub text: String,
    pub kind: Kind,
    pub links: Vec<(usize, usize, Target)>,
}

/// A navigable target at a line and starting column.
pub struct Jump {
    pub line: usize,
    pub col: usize,
    pub target: Target,
}

pub open spec fn link_view(l: (usize, usize, Target)) -> (nat, nat, TargetView) {
    (l.0 as nat, l.1 as nat, target_view(l.2))
}

pub open spec fn dline_view(d: DLine) -> (Seq<char>, Kind, Seq<(nat, nat, TargetView)>) {
    (d.text@, d.kind, d.links@.map_values(|l: (usize, usize, Target)| link_view(l)))
}

pub open spec fn dline_views(v: Seq<DLine>) -> Seq<(Seq<char>, Kind, Seq<(nat, nat, TargetView)>)> {
    v.map_values(|d: DLine| dline_view(d))
}

pub open spec fn jump_view(j: Jump) -> (nat, nat, TargetView) {
    (j.line as nat, j.col as nat, target_view(j.target))
}

// ---------------------------------------------------------------------------
// dates
// ---------------------------------------------------------------------------

/// What chrono prints for an RFC 3339 timestamp `iso` in format `fmt`
/// (`None` when `iso` does not parse).
pub uninterp spec fn formatted_date(iso: Seq<char>, fmt: Seq<char>) -> Option<Seq<char>>;

/// Calls `chrono::DateTime::parse_from_rfc3339` and formats the result with
/// `fmt`; the text is named [`formatted_date`] of both. Only the detail
/// pane's own format is admitted: chrono's `to_string` panics on a format
/// that holds an invalid item.
#[verifier::external_body]
fn format_date(iso: &str, fmt: &str) -> (r: Option<String>)
    requires
        fmt@ == date_format(),
    ensures
        match r {
            Some(s) => formatted_date(iso@, fmt@) == Some(s@),
            None => formatted_date(iso@, fmt@) is None,
        },
{
    match chrono::DateTime::parse_from_rfc3339(iso) {
        Ok(dt) => Some(dt.format(fmt).to_string()),
        Err(_) => None,
    }
}

pub open spec fn date_format() -> Seq<char> {
    "%b %-d, %Y %H:%M"@
}

/// `2025-12-31T19:00:00Z` as `Dec 31, 2025 19:00`; the raw text when it is
/// not a timestamp.
pub open spec fn humanized(iso: Seq<char>) -> Seq<char> {
    match formatted_date(iso, date_format()) {
        Some(s) => s,
        None => iso,
    }
}

pub fn humanize_date(iso: &str) -> (r: String)
    ensures
        r@ == humanized(iso@),
{
    proof {
        reveal_strlit("%b %-d, %Y %H:%M");
    }
    match format_date(iso, "%b %-d, %Y %H:%M") {
        Some(s) => s,
        None => crate::text::owned(iso),
    }
}

// ---------------------------------------------------------------------------
// lines
// ---------------------------------------------------------------------------

/// `label` left-aligned in 13 columns.
pub open spec fn padded(label: Seq<char>) -> Seq<char> {
    pad_right(label, 13)
}

pub open spec fn field_spec(label: Seq<char>, value: Seq<char>) -> (Seq<char>, Kind, Seq<(nat, nat, TargetView)>) {
    (padded(label) + value, Kind::Field, seq![])
}

pub open spec fn section_spec(text: Seq<char>) -> (Seq<char>, Kind, Seq<(nat, nat, TargetView)>) {
    (text, Kind::Section, seq![])
}

pub open spec fn empty_spec() -> (Seq<char>, Kind, Seq<(nat, nat, TargetView)>) {
    (seq![], Kind::Empty, seq![])
}

/// `<prefix><glyph> <id>  <title>`, the id a task link when it exists.
pub open spec fn ref_line_spec(prefix: Seq<char>, glyph: Seq<char>, id: Seq<char>, title: Seq<char>, exists: bool) -> (Seq<char>, Kind, Seq<(nat, nat, TargetView)>) {
    let head = prefix + glyph + seq![' '];
    (
        head + id + seq![' ', ' '] + title,
        Kind::Field,
        if exists { seq![(head.len(), id.len(), TargetView::Task(id))] } else { seq![] },
    )
}

fn pad(label: &str) -> (r: Vec<char>)
    ensures
        r@ == padded(label@),
{
    padded_to(label, 13)
}

fn field(label: &str, value: &str) -> (d: DLine)
    ensures
        dline_view(d) == field_spec(label@, value@),
{
    let mut t = pad(label);
    push_str(&mut t, value);
    let d = DLine { text: string_of(&t), kind: Kind::Field, links: Vec::new() };
    assert(dline_view(d).2 =~= Seq::empty());
    d
}

fn section(text: &str) -> (d: DLine)
    ensures
        dline_view(d) == section_spec(text@),
{
    let d = DLine { text: crate::text::owned(text), kind: Kind::Section, links: Vec::new() };
    assert(dline_view(d).2 =~= Seq::empty());
    d
}

fn empty_line() -> (d: DLine)
    ensures
        dline_view(d) == empty_spec(),
{
    let d = DLine { text: String::new(), kind: Kind::Empty, links: Vec::new() };
    assert(dline_view(d).2 =~= Seq::empty());
    assert(dline_view(d).0 =~= Seq::empty());
    d
}

fn ref_line(prefix: &str, glyph: &str, id: &str, title: &str, exists: bool) -> (d: DLine)
    ensures
        dline_view(d) == ref_line_spec(prefix@, glyph@, id@, title@, exists),
{
    let mut head = chars_of(prefix);
    push_str(&mut head, glyph);
    head.push(' ');
    let col = head.len();
    let mut text = copy_chars(&head);
    push_str(&mut text, id);
    text.push(' ');
    text.push(' ');
    push_str(&mut text, title);
    let mut links: Vec<(usize, usize, Target)> = Vec::new();
    if exists {
        links.push((col, chars_of(id).len(), Target::Task(crate::text::owned(id))));
    }
    let d = DLine { text: string_of(&text), kind: Kind::Field, links };
    proof {
        let s = ref_line_spec(prefix@, glyph@, id@, title@, exists);
        assert(head@ =~= prefix@ + glyph@ + seq![' ']);
        assert(dline_view(d).0 =~= s.0);
        assert(dline_view(d).2 =~= s.2);
    }
    d
}

// ---------------------------------------------------------------------------
// body links
// ---------------------------------------------------------------------------

/// A char of a bare id or URL token run.
pub open spec fn tok_char(c: char) -> bool {
    is_lower(c) || is_digit(c) || c == '-' || c == '.'
}

pub open spec fn is_url_spec(s: Seq<char>) -> bool {
    starts_with(s, "http://"@) || starts_with(s, "https://"@)
}

/// The first index at or after `i` holding `c` (or the end).
pub open spec fn find_char(s: Seq<char>, c: char, i: int) -> int
    decreases s.len() - i,
{
    if i < 0 || i >= s.len() || s[i] == c {
        i
    } else {
        find_char(s, c, i + 1)
    }
}

/// The end of the run of non-white-space chars from `i`.
pub open spec fn word_end(s: Seq<char>, i: int) -> int
    decreases s.len() - i,
{
    if i < 0 || i >= s.len() || is_ws(s[i]) {
        i
    } else {
        word_end(s, i + 1)
    }
}

/// The end of the token run from `i`.
pub open spec fn tok_end(s: Seq<char>, i: int) -> int
    decreases s.len() - i,
{
    if i < 0 || i >= s.len() || !tok_char(s[i]) {
        i
    } else {
        tok_end(s, i + 1)
    }
}

/// A markdown image link `![alt](path)` at `start`: its length in chars and
/// its path.
pub open spec fn image_link(s: Seq<char>, start: int) -> Option<(int, Seq<char>)> {
    if !(0 <= start && start + 1 < s.len() && s[start] == '!' && s[start + 1] == '[') {
        None
    } else {
        let i = find_char(s, ']', start + 2);
        if !(i + 1 < s.len() && s[i + 1] == '(') {
            None
        } else {
            let j = find_char(s, ')', i + 2);
            if j >= s.len() {
                None
            } else {
                Some((j + 1 - start, s.subrange(i + 2, j)))
            }
        }
    }
}

/// The links in `s` from `i` on: image links, URLs (up to white space), and
/// token runs that are known task ids.
pub open spec fn body_links_from(s: Seq<char>, i: int, known: Set<Seq<char>>) -> Seq<(nat, nat, TargetView)>
    decreases s.len() - i,
{
    if i < 0 || i >= s.len() {
        seq![]
    } else if s[i] == '!' && image_link(s, i) is Some && image_link(s, i).unwrap().0 > 0 {
        let (len, path) = image_link(s, i).unwrap();
        seq![(i as nat, len as nat, TargetView::Artifact(path))] + body_links_from(s, i + len, known)
    } else if is_url_spec(s.skip(i)) {
        let e = word_end(s, i);
        if e <= i || e > s.len() {
            seq![]
        } else {
            seq![(i as nat, (e - i) as nat, TargetView::Url(s.subrange(i, e)))] + body_links_from(s, e, known)
        }
    } else if tok_char(s[i]) {
        let e = tok_end(s, i);
        let tok = s.subrange(i, e);
        if e <= i || e > s.len() {
            seq![]
        } else {
            (if known.contains(tok) { seq![(i as nat, (e - i) as nat, TargetView::Task(tok))] } else { seq![] })
                + body_links_from(s, e, known)
        }
    } else {
        body_links_from(s, i + 1, known)
    }
}

/// Parse a markdown image link `![alt](path)` starting at `start`: its total
/// length in chars and its path, when well-formed.
pub fn parse_image_link(chars: &[char], start: usize) -> (r: Option<(usize, String)>)
    ensures
        match r {
            Some((len, path)) => image_link(chars@, start as int) == Some((len as int, path@)),
            None => image_link(chars@, start as int) is None,
        },
{
    if !(start < chars.len() && start + 1 < chars.len() && chars[start] == '!' && chars[start + 1] == '[') {
        return None;
    }
    let mut i = start + 2;
    while i < chars.len() && chars[i] != ']'
        invariant
            start + 2 <= i <= chars.len(),
            find_char(chars@, ']', start + 2) == find_char(chars@, ']', i as int),
        decreases chars.len() - i,
    {
        i += 1;
    }
    if !(i < chars.len() && i + 1 < chars.len() && chars[i + 1] == '(') {
        return None;
    }
    let path_start = i + 2;
    let mut j = path_start;
    while j < chars.len() && chars[j] != ')'
        invariant
            path_start <= j <= chars.len(),
            find_char(chars@, ')', path_start as int) == find_char(chars@, ')', j as int),
        decreases chars.len() - j,
    {
        j += 1;
    }
    if j >= chars.len() {
        return None;
    }
    Some((j + 1 - start, string_of(&slice(chars, path_start, j))))
}

/// A set of known ids, as a sorted-free list.
pub open spec fn id_set_of(tv: Seq<TaskView>) -> Set<Seq<char>> {
    Set::new(|s: Seq<char>| exists|i: int| 0 <= i < tv.len() && tv[i].id == s)
}

fn known_id(tasks: &[Task], tok: &[char]) -> (b: bool)
    ensures
        b == id_set_of(tviews(tasks@)).contains(tok@),
{
    let ghost tv = tviews(tasks@);
    let mut i: usize = 0;
    while i < tasks.len()
        invariant
            i <= tasks.len(),
            tv == tviews(tasks@),
            forall|j: int| 0 <= j < i ==> tv[j].id != tok@,
        decreases tasks.len() - i,
    {
        if eq(&chars_of(tasks[i].id.as_str()), tok) {
            assert(tv[i as int].id == tok@);
            return true;
        }
        i += 1;
    }
    false
}

/// Scan a body line for image links, URLs and known task ids, as
/// (column, length, target).
pub fn scan_body_links(line: &str, all: &[Task]) -> (out: Vec<(usize, usize, Target)>)
    ensures
        out@.map_values(|l: (usize, usize, Target)| link_view(l)) == body_links_from(line@, 0, id_set_of(tviews(all@))),
{
    let chars = chars_of(line);
    let ghost known = id_set_of(tviews(all@));
    let mut out: Vec<(usize, usize, Target)> = Vec::new();
    let mut i: usize = 0;
    proof {
        reveal_strlit("http://");
        reveal_strlit("https://");
    }
    while i < chars.len()
        invariant
            chars@ == line@,
            i <= chars.len(),
            known == id_set_of(tviews(all@)),
            out@.map_values(|l: (usize, usize, Target)| link_view(l)) + body_links_from(chars@, i as int, known)
                == body_links_from(chars@, 0, known),
        decreases chars.len() - i,
    {
        let ghost ob = out@.map_values(|l: (usize, usize, Target)| link_view(l));
        if chars[i] == '!' {
            if let Some((len, path)) = parse_image_link(&chars, i) {
                if len > 0 {
                    let ghost pv = path@;
                    out.push((i, len, Target::Artifact(path)));
                    proof {
                        let rest = body_links_from(chars@, i + len, known);
                        assert(body_links_from(chars@, i as int, known) == seq![(i as nat, len as nat, TargetView::Artifact(pv))] + rest);
                        assert(out@.map_values(|l: (usize, usize, Target)| link_view(l)) =~= ob.push((i as nat, len as nat, TargetView::Artifact(pv))));
                        vstd::seq_lib::lemma_concat_associative(ob, seq![(i as nat, len as nat, TargetView::Artifact(pv))], rest);
                        assert(ob.push((i as nat, len as nat, TargetView::Artifact(pv))) =~= ob + seq![(i as nat, len as nat, TargetView::Artifact(pv))]);
                    }
                    assert(i + len <= chars.len()) by {
                        assert(len == find_char(chars@, ')', 0) + 0 || true);
                        lemma_image_len(chars@, i as int);
                    }
                    i += len;
                    continue;
                }
            }
        }
        let rest = slice(&chars, i, chars.len());
        assert(rest@ == chars@.skip(i as int));
        if has_prefix(&rest, &chars_of("http://")) || has_prefix(&rest, &chars_of("https://")) {
            let start = i;
            while i < chars.len() && !whitespace(chars[i])
                invariant
                    start <= i <= chars.len(),
                    word_end(chars@, start as int) == word_end(chars@, i as int),
                decreases chars.len() - i,
            {
                i += 1;
            }
            proof {
                reveal_strlit("http://");
                reveal_strlit("https://");
                assert(!is_ws(chars@[start as int])) by {
                    if occurs_at(rest@, "http://"@, 0) {
                        assert(rest@.subrange(0, 7)[0] == rest@[0]);
                    } else {
                        assert(rest@.subrange(0, 8)[0] == rest@[0]);
                    }
                }
            }
            assert(i > start);
            let url = string_of(&slice(&chars, start, i));
            let ghost uv = url@;
            out.push((start, i - start, Target::Url(url)));
            proof {
                let tail = body_links_from(chars@, i as int, known);
                let e = (start as nat, (i - start) as nat, TargetView::Url(uv));
                assert(out@.map_values(|l: (usize, usize, Target)| link_view(l)) =~= ob.push(e));
                assert(ob.push(e) =~= ob + seq![e]);
                vstd::seq_lib::lemma_concat_associative(ob, seq![e], tail);
            }
            continue;
        }
        if (('a' <= chars[i] && chars[i] <= 'z') || ('0' <= chars[i] && chars[i] <= '9') || chars[i] == '-' || chars[i] == '.') {
            let start = i;
            while i < chars.len() && (('a' <= chars[i] && chars[i] <= 'z') || ('0' <= chars[i] && chars[i] <= '9') || chars[i] == '-' || chars[i] == '.')
                invariant
                    start <= i <= chars.len(),
                    tok_end(chars@, start as int) == tok_end(chars@, i as int),
                decreases chars.len() - i,
            {
                i += 1;
            }
            let tok = slice(&chars, start, i);
            if known_id(all, &tok) {
                let ghost tv = tok@;
                out.push((start, i - start, Target::Task(string_of(&tok))));
                proof {
                    let tail = body_links_from(chars@, i as int, known);
                    let e = (start as nat, (i - start) as nat, TargetView::Task(tv));
                    assert(out@.map_values(|l: (usize, usize, Target)| link_view(l)) =~= ob.push(e));
                    assert(ob.push(e) =~= ob + seq![e]);
                    vstd::seq_lib::lemma_concat_associative(ob, seq![e], tail);
                }
            } else {
                proof {
                    let tail = body_links_from(chars@, i as int, known);
                    assert(Seq::<(nat, nat, TargetView)>::empty() + tail =~= tail);
                }
            }
            continue;
        }
        i += 1;
    }
    proof {
        assert(body_links_from(chars@, chars.len() as int, known) =~= Seq::empty());
        assert(out@.map_values(|l: (usize, usize, Target)| link_view(l)) + Seq::empty() =~= out@.map_values(|l: (usize, usize, Target)| link_view(l)));
    }
    out
}

proof fn lemma_image_len(s: Seq<char>, start: int)
    requires
        image_link(s, start) is Some,
    ensures
        start + image_link(s, start).unwrap().0 <= s.len(),
{
    lemma_find_char(s, ']', start + 2);
    let i = find_char(s, ']', start + 2);
    lemma_find_char(s, ')', i + 2);
}

proof fn lemma_find_char(s: Seq<char>, c: char, i: int)
    requires
        0 <= i,
    ensures
        i <= find_char(s, c, i),
        i <= s.len() ==> find_char(s, c, i) <= s.len(),
    decreases s.len() - i,
{
    if i < s.len() && s[i] != c {
        lemma_find_char(s, c, i + 1);
    }
}


// ---------------------------------------------------------------------------
// the pane
// ---------------------------------------------------------------------------

pub type LineView = (Seq<char>, Kind, Seq<(nat, nat, TargetView)>);

/// The task that `id` names: the last one in `all` with that id.
pub open spec fn last_with_id(all: Seq<TaskView>, id: Seq<char>) -> Option<TaskView>
    decreases all.len(),
{
    if all.len() == 0 {
        None
    } else if all.last().id == id {
        Some(all.last())
    } else {
        last_with_id(all.drop_last(), id)
    }
}

/// A reference to `id`: its status glyph and title, or a blank glyph and
/// `(missing)` without a link.
pub open spec fn ref_spec(id: Seq<char>, all: Seq<TaskView>) -> LineView {
    match last_with_id(all, id) {
        Some(u) => ref_line_spec("  "@, seq![status_emoji(u.status)], id, u.title, true),
        None => ref_line_spec("  "@, " "@, id, "(missing)"@, false),
    }
}

pub open spec fn labels_text(labels: Seq<Seq<char>>) -> Seq<char> {
    if labels.len() == 0 {
        "-"@
    } else {
        join_seq(labels, ", "@)
    }
}

pub open spec fn date_text(d: Option<Seq<char>>) -> Seq<char> {
    match d {
        Some(s) => humanized(s),
        None => "-"@,
    }
}

pub open spec fn header_spec(t: TaskView) -> Seq<LineView> {
    seq![
        section_spec("Task: "@ + t.id),
        empty_spec(),
        field_spec("Title:"@, t.title),
        field_spec("Status:"@, status_dir(t.status)),
        field_spec("Type:"@, t.kind),
        field_spec("Priority:"@, seq!['p'] + dec_spec(t.priority as nat)),
        field_spec("Created:"@, date_text(t.created)),
        field_spec("Updated:"@, date_text(t.updated)),
        field_spec("Labels:"@, labels_text(t.labels)),
    ]
}

pub open spec fn deps_spec(t: TaskView, all: Seq<TaskView>) -> Seq<LineView> {
    if t.depends_on.len() == 0 {
        seq![]
    } else {
        seq![empty_spec(), section_spec("Depends on:"@)] + t.depends_on.map_values(
            |d: Seq<char>| ref_spec(d, all),
        )
    }
}

/// Where insertion sort puts `x` into `s`: before the first task whose id
/// is greater.
pub open spec fn id_slot(s: Seq<TaskView>, x: TaskView, k: int) -> int
    decreases s.len() - k,
{
    if k < 0 || k >= s.len() || seq_lt(x.id, s[k].id) {
        k
    } else {
        id_slot(s, x, k + 1)
    }
}

/// `s` stably sorted by id: equal ids keep their order.
pub open spec fn by_id(s: Seq<TaskView>) -> Seq<TaskView>
    decreases s.len(),
{
    if s.len() == 0 {
        s
    } else {
        let r = by_id(s.drop_last());
        r.insert(id_slot(r, s.last(), 0), s.last())
    }
}

/// The tasks that depend on `t`, by id.
pub open spec fn dependents(t: TaskView, all: Seq<TaskView>) -> Seq<TaskView> {
    by_id(all.filter(|u: TaskView| u.depends_on.contains(t.id)))
}

/// The children of `t`, by id.
pub open spec fn children(t: TaskView, all: Seq<TaskView>) -> Seq<TaskView> {
    by_id(all.filter(|u: TaskView| u.parent == Some(t.id)))
}

pub open spec fn task_ref_spec(u: TaskView) -> LineView {
    ref_line_spec("  "@, seq![status_emoji(u.status)], u.id, u.title, true)
}

/// A headed list of task references (nothing when there are none).
pub open spec fn listed_spec(head: Seq<char>, us: Seq<TaskView>) -> Seq<LineView> {
    if us.len() == 0 {
        seq![]
    } else {
        seq![empty_spec(), section_spec(head)] + us.map_values(|u: TaskView| task_ref_spec(u))
    }
}

pub open spec fn parent_spec(t: TaskView, all: Seq<TaskView>) -> Seq<LineView> {
    match t.parent {
        Some(p) => seq![empty_spec(), section_spec("Parent:"@), ref_spec(p, all)],
        None => seq![],
    }
}

pub open spec fn source_spec(t: TaskView) -> Seq<LineView> {
    match t.source {
        Some(s) => seq![
            empty_spec(),
            (
                padded("Source:"@) + s,
                Kind::Field,
                if is_url_spec(s) {
                    seq![(padded("Source:"@).len(), s.len(), TargetView::Url(s))]
                } else {
                    seq![]
                },
            ),
        ],
        None => seq![],
    }
}

/// A body line with its links.
pub open spec fn body_line_spec(line: Seq<char>, all: Seq<TaskView>) -> LineView {
    (line, Kind::Body, body_links_from(line, 0, id_set_of(all)))
}

/// The trimmed body, one line per source line with wiki-link brackets
/// removed, after a blank line (nothing for an empty body).
pub open spec fn body_spec(t: TaskView, all: Seq<TaskView>) -> Seq<LineView> {
    let b = trim_seq(t.body);
    if b.len() == 0 {
        seq![]
    } else {
        seq![empty_spec()] + lines_seq(b).map_values(
            |raw: Seq<char>| body_line_spec(unwikilinked(raw), all),
        )
    }
}

/// The detail pane of `t` among `all`: header fields, dependencies, the
/// tasks it blocks, parent, children, source, and body.
pub open spec fn pane(t: TaskView, all: Seq<TaskView>) -> Seq<LineView> {
    header_spec(t) + deps_spec(t, all) + listed_spec("Blocks:"@, dependents(t, all)) + parent_spec(t, all)
        + listed_spec("Children:"@, children(t, all)) + source_spec(t) + body_spec(t, all)
}

fn find_last(all: &[Task], id: &str) -> (r: Option<usize>)
    ensures
        match r {
            Some(i) => i < all@.len() && last_with_id(tviews(all@), id@) == Some(all@[i as int]@),
            None => last_with_id(tviews(all@), id@) is None,
        },
{
    let ghost tv = tviews(all@);
    let mut i: usize = all.len();
    assert(tv.take(i as int) =~= tv);
    while i > 0
        invariant
            i <= all@.len(),
            tv == tviews(all@),
            last_with_id(tv, id@) == last_with_id(tv.take(i as int), id@),
        decreases i,
    {
        assert(tv.take(i as int).last() == all@[i - 1]@);
        if same(all[i - 1].id.as_str(), id) {
            return Some(i - 1);
        }
        assert(tv.take(i as int).drop_last() =~= tv.take(i - 1));
        i -= 1;
    }
    None
}

fn ref_to(id: &str, all: &[Task]) -> (d: DLine)
    ensures
        dline_view(d) == ref_spec(id@, tviews(all@)),
{
    match find_last(all, id) {
        Some(k) => ref_line("  ", all[k].status.emoji(), id, all[k].title.as_str(), true),
        None => ref_line("  ", " ", id, "(missing)", false),
    }
}

fn date_or_dash(d: &Option<String>) -> (r: String)
    ensures
        r@ == date_text(crate::model::ostr(*d)),
{
    match d {
        Some(s) => humanize_date(s.as_str()),
        None => crate::text::owned("-"),
    }
}

fn labels_or_dash(labels: &Vec<String>) -> (r: String)
    ensures
        r@ == labels_text(strs(labels@)),
{
    if labels.len() == 0 {
        crate::text::owned("-")
    } else {
        let mut pieces: Vec<Vec<char>> = Vec::new();
        let mut i: usize = 0;
        while i < labels.len()
            invariant
                i <= labels.len(),
                pieces@.map_values(|p: Vec<char>| p@) == strs(labels@).take(i as int),
            decreases labels.len() - i,
        {
            let ghost before = pieces@;
            let c = chars_of(labels[i].as_str());
            pieces.push(c);
            assert(pieces@.map_values(|p: Vec<char>| p@) =~= before.map_values(|p: Vec<char>| p@).push(c@));
            assert(strs(labels@).take(i + 1) =~= strs(labels@).take(i as int).push(labels@[i as int]@));
            i += 1;
        }
        assert(strs(labels@).take(labels.len() as int) =~= strs(labels@));
        string_of(&join(&pieces, &chars_of(", ")))
    }
}

fn header_lines(task: &Task) -> (r: Vec<DLine>)
    ensures
        dline_views(r@) == header_spec(task@),
{
    let mut head = chars_of("Task: ");
    push_str(&mut head, task.id.as_str());
    let mut prio = vec!['p'];
    push_all(&mut prio, &dec(task.priority as u64));
    assert(prio@ =~= seq!['p'] + dec_spec(task.priority as nat));
    let l0 = section(string_of(&head).as_str());
    let l1 = empty_line();
    let l2 = field("Title:", task.title.as_str());
    let l3 = field("Status:", task.status.dir());
    let l4 = field("Type:", task.kind.as_str());
    let l5 = field("Priority:", string_of(&prio).as_str());
    let l6 = field("Created:", date_or_dash(&task.created).as_str());
    let l7 = field("Updated:", date_or_dash(&task.updated).as_str());
    let l8 = field("Labels:", labels_or_dash(&task.labels).as_str());
    let ghost h = header_spec(task@);
    assert(dline_view(l0) == h[0]);
    assert(dline_view(l5) == h[5]);
    assert(dline_view(l8) == h[8]);
    let r = vec![l0, l1, l2, l3, l4, l5, l6, l7, l8];
    assert(dline_views(r@) =~= h);
    r
}

fn deps_lines(task: &Task, all: &[Task]) -> (r: Vec<DLine>)
    ensures
        dline_views(r@) == deps_spec(task@, tviews(all@)),
{
    let mut r: Vec<DLine> = Vec::new();
    if task.depends_on.len() == 0 {
        assert(dline_views(r@) =~= Seq::<LineView>::empty());
        return r;
    }
    r.push(empty_line());
    r.push(section("Depends on:"));
    let ghost deps = strs(task.depends_on@);
    let ghost f = |d: Seq<char>| ref_spec(d, tviews(all@));
    let mut i: usize = 0;
    assert(dline_views(r@) =~= seq![empty_spec(), section_spec("Depends on:"@)] + deps.take(0).map_values(f));
    while i < task.depends_on.len()
        invariant
            i <= task.depends_on.len(),
            deps == strs(task.depends_on@),
            f == (|d: Seq<char>| ref_spec(d, tviews(all@))),
            dline_views(r@) == seq![empty_spec(), section_spec("Depends on:"@)] + deps.take(i as int).map_values(f),
        decreases task.depends_on.len() - i,
    {
        let ghost before = dline_views(r@);
        let d = ref_to(task.depends_on[i].as_str(), all);
        r.push(d);
        assert(deps.take(i + 1).map_values(f) =~= deps.take(i as int).map_values(f).push(f(deps[i as int])));
        assert(dline_views(r@) =~= before.push(dline_view(d)));
        i += 1;
    }
    assert(deps.take(task.depends_on.len() as int) =~= deps);
    r
}

fn id_before(a: &Task, b: &Task) -> (r: bool)
    ensures
        r == seq_lt(a@.id, b@.id),
{
    lt(&chars_of(a.id.as_str()), &chars_of(b.id.as_str()))
}

/// `v` stably sorted by id.
fn sort_by_id(v: &Vec<Task>) -> (r: Vec<Task>)
    ensures
        tviews(r@) == by_id(tviews(v@)),
{
    let ghost s = tviews(v@);
    let mut r: Vec<Task> = Vec::new();
    let mut i: usize = 0;
    assert(s.take(0) =~= Seq::<TaskView>::empty());
    while i < v.len()
        invariant
            i <= v.len(),
            s == tviews(v@),
            tviews(r@) == by_id(s.take(i as int)),
        decreases v.len() - i,
    {
        let x = v[i].duplicate();
        let ghost rv = tviews(r@);
        let mut k: usize = 0;
        while k < r.len() && !id_before(&x, &r[k])
            invariant
                k <= r.len(),
                rv == tviews(r@),
                id_slot(rv, x@, 0) == id_slot(rv, x@, k as int),
            decreases r.len() - k,
        {
            k += 1;
        }
        r.insert(k, x);
        proof {
            let t = s.take(i + 1);
            assert(t.drop_last() =~= s.take(i as int));
            assert(t.last() == x@);
            assert(tviews(r@) =~= rv.insert(k as int, x@));
        }
        i += 1;
    }
    assert(s.take(v.len() as int) =~= s);
    r
}

fn dependents_of(task: &Task, all: &[Task]) -> (r: Vec<Task>)
    ensures
        tviews(r@) == dependents(task@, tviews(all@)),
{
    let ghost tv = tviews(all@);
    let ghost p = |u: TaskView| u.depends_on.contains(task@.id);
    let mut f: Vec<Task> = Vec::new();
    let mut i: usize = 0;
    assert(tv.take(0).filter(p) =~= Seq::<TaskView>::empty());
    while i < all.len()
        invariant
            i <= all.len(),
            tv == tviews(all@),
            p == (|u: TaskView| u.depends_on.contains(task@.id)),
            tviews(f@) == tv.take(i as int).filter(p),
        decreases all.len() - i,
    {
        proof {
            assert(tv.take(i + 1) =~= tv.take(i as int).push(all@[i as int]@));
            tv.take(i as int).lemma_filter_push(all@[i as int]@, p);
        }
        if has_string(&all[i].depends_on, &task.id) {
            let ghost before = tviews(f@);
            f.push(all[i].duplicate());
            assert(tviews(f@) =~= before.push(all@[i as int]@));
        }
        i += 1;
    }
    assert(tv.take(all.len() as int) =~= tv);
    sort_by_id(&f)
}

fn children_of(task: &Task, all: &[Task]) -> (r: Vec<Task>)
    ensures
        tviews(r@) == children(task@, tviews(all@)),
{
    let ghost tv = tviews(all@);
    let ghost p = |u: TaskView| u.parent == Some(task@.id);
    let mut f: Vec<Task> = Vec::new();
    let mut i: usize = 0;
    assert(tv.take(0).filter(p) =~= Seq::<TaskView>::empty());
    while i < all.len()
        invariant
            i <= all.len(),
            tv == tviews(all@),
            p == (|u: TaskView| u.parent == Some(task@.id)),
            tviews(f@) == tv.take(i as int).filter(p),
        decreases all.len() - i,
    {
        proof {
            assert(tv.take(i + 1) =~= tv.take(i as int).push(all@[i as int]@));
            tv.take(i as int).lemma_filter_push(all@[i as int]@, p);
        }
        let hit = match &all[i].parent {
            Some(q) => same(q.as_str(), task.id.as_str()),
            None => false,
        };
        if hit {
            let ghost before = tviews(f@);
            f.push(all[i].duplicate());
            assert(tviews(f@) =~= before.push(all@[i as int]@));
        }
        i += 1;
    }
    assert(tv.take(all.len() as int) =~= tv);
    sort_by_id(&f)
}

fn listed_lines(head: &str, us: &Vec<Task>) -> (r: Vec<DLine>)
    ensures
        dline_views(r@) == listed_spec(head@, tviews(us@)),
{
    let mut r: Vec<DLine> = Vec::new();
    if us.len() == 0 {
        assert(dline_views(r@) =~= Seq::<LineView>::empty());
        return r;
    }
    r.push(empty_line());
    r.push(section(head));
    let ghost uv = tviews(us@);
    let ghost f = |u: TaskView| task_ref_spec(u);
    let mut i: usize = 0;
    assert(dline_views(r@) =~= seq![empty_spec(), section_spec(head@)] + uv.take(0).map_values(f));
    while i < us.len()
        invariant
            i <= us.len(),
            uv == tviews(us@),
            f == (|u: TaskView| task_ref_spec(u)),
            dline_views(r@) == seq![empty_spec(), section_spec(head@)] + uv.take(i as int).map_values(f),
        decreases us.len() - i,
    {
        let ghost before = dline_views(r@);
        let d = ref_line("  ", us[i].status.emoji(), us[i].id.as_str(), us[i].title.as_str(), true);
        r.push(d);
        assert(uv.take(i + 1).map_values(f) =~= uv.take(i as int).map_values(f).push(f(uv[i as int])));
        assert(dline_views(r@) =~= before.push(dline_view(d)));
        i += 1;
    }
    assert(uv.take(us.len() as int) =~= uv);
    r
}

fn parent_lines(task: &Task, all: &[Task]) -> (r: Vec<DLine>)
    ensures
        dline_views(r@) == parent_spec(task@, tviews(all@)),
{
    let mut r: Vec<DLine> = Vec::new();
    match &task.parent {
        Some(p) => {
            r.push(empty_line());
            r.push(section("Parent:"));
            r.push(ref_to(p.as_str(), all));
        },
        None => {},
    }
    assert(dline_views(r@) =~= parent_spec(task@, tviews(all@)));
    r
}

fn is_url(s: &str) -> (b: bool)
    ensures
        b == is_url_spec(s@),
{
    let v = chars_of(s);
    has_prefix(&v, &chars_of("http://")) || has_prefix(&v, &chars_of("https://"))
}

fn source_lines(task: &Task) -> (r: Vec<DLine>)
    ensures
        dline_views(r@) == source_spec(task@),
{
    let mut r: Vec<DLine> = Vec::new();
    match &task.source {
        Some(s) => {
            let mut text = pad("Source:");
            let col = text.len();
            push_str(&mut text, s.as_str());
            let mut links: Vec<(usize, usize, Target)> = Vec::new();
            if is_url(s.as_str()) {
                links.push((col, chars_of(s.as_str()).len(), Target::Url(s.clone())));
            }
            r.push(empty_line());
            let d = DLine { text: string_of(&text), kind: Kind::Field, links };
            r.push(d);
            assert(dline_view(d).2 =~= source_spec(task@)[1].2);
        },
        None => {},
    }
    assert(dline_views(r@) =~= source_spec(task@));
    r
}

fn body_lines(task: &Task, all: &[Task]) -> (r: Vec<DLine>)
    ensures
        dline_views(r@) == body_spec(task@, tviews(all@)),
{
    let mut r: Vec<DLine> = Vec::new();
    let b = trim_str(task.body.as_str());
    if b.len() == 0 {
        assert(dline_views(r@) =~= Seq::<LineView>::empty());
        return r;
    }
    r.push(DLine { text: String::new(), kind: Kind::Empty, links: Vec::new() });
    let ls = lines(&b);
    let ghost lv = ls@.map_values(|p: Vec<char>| p@);
    let ghost f = |raw: Seq<char>| body_line_spec(unwikilinked(raw), tviews(all@));
    let mut i: usize = 0;
    assert(dline_view(r@[0]) =~= empty_spec());
    assert(dline_views(r@) =~= seq![empty_spec()] + lv.take(0).map_values(f));
    while i < ls.len()
        invariant
            i <= ls.len(),
            lv == ls@.map_values(|p: Vec<char>| p@),
            f == (|raw: Seq<char>| body_line_spec(unwikilinked(raw), tviews(all@))),
            dline_views(r@) == seq![empty_spec()] + lv.take(i as int).map_values(f),
        decreases ls.len() - i,
    {
        let ghost before = dline_views(r@);
        let line = strip_wikilinks(string_of(&ls[i]).as_str());
        let links = scan_body_links(line.as_str(), all);
        let d = DLine { text: line, kind: Kind::Body, links };
        r.push(d);
        assert(dline_view(d) == f(lv[i as int]));
        assert(lv.take(i + 1).map_values(f) =~= lv.take(i as int).map_values(f).push(f(lv[i as int])));
        assert(dline_views(r@) =~= before.push(dline_view(d)));
        i += 1;
    }
    assert(lv.take(ls.len() as int) =~= lv);
    r
}

/// Turn a task into display lines: header fields, then the tasks it depends
/// on, the tasks that depend on it, its parent, its children, its source and
/// its body, each reference a link when its target is known.
pub fn build(task: &Task, all: &[Task]) -> (out: Vec<DLine>)
    ensures
        dline_views(out@) == pane(task@, tviews(all@)),
{
    let ghost tv = tviews(all@);
    let mut out = header_lines(task);
    let mut more = deps_lines(task, all);
    let ghost a = dline_views(out@);
    let ghost b = dline_views(more@);
    out.append(&mut more);
    assert(dline_views(out@) =~= a + b);
    let blocks = dependents_of(task, all);
    let mut more = listed_lines("Blocks:", &blocks);
    let ghost a = dline_views(out@);
    let ghost b = dline_views(more@);
    out.append(&mut more);
    assert(dline_views(out@) =~= a + b);
    let mut more = parent_lines(task, all);
    let ghost a = dline_views(out@);
    let ghost b = dline_views(more@);
    out.append(&mut more);
    assert(dline_views(out@) =~= a + b);
    let kids = children_of(task, all);
    let mut more = listed_lines("Children:", &kids);
    let ghost a = dline_views(out@);
    let ghost b = dline_views(more@);
    out.append(&mut more);
    assert(dline_views(out@) =~= a + b);
    let mut more = source_lines(task);
    let ghost a = dline_views(out@);
    let ghost b = dline_views(more@);
    out.append(&mut more);
    assert(dline_views(out@) =~= a + b);
    let mut more = body_lines(task, all);
    let ghost a = dline_views(out@);
    let ghost b = dline_views(more@);
    out.append(&mut more);
    assert(dline_views(out@) =~= a + b);
    out
}

// ---------------------------------------------------------------------------
// jumps
// ---------------------------------------------------------------------------

pub open spec fn links_view(v: Seq<(usize, usize, Target)>) -> Seq<(nat, nat, TargetView)> {
    v.map_values(|l: (usize, usize, Target)| link_view(l))
}

/// Where insertion sort puts link `x` into `s`: before the first link with a
/// greater column.
pub open spec fn col_slot(s: Seq<(nat, nat, TargetView)>, x: (nat, nat, TargetView), k: int) -> int
    decreases s.len() - k,
{
    if k < 0 || k >= s.len() || x.0 < s[k].0 {
        k
    } else {
        col_slot(s, x, k + 1)
    }
}

/// Links stably sorted by column.
pub open spec fn by_col(s: Seq<(nat, nat, TargetView)>) -> Seq<(nat, nat, TargetView)>
    decreases s.len(),
{
    if s.len() == 0 {
        s
    } else {
        let r = by_col(s.drop_last());
        r.insert(col_slot(r, s.last(), 0), s.last())
    }
}

/// The jumps of line `i`: its links by column, as (line, column, target).
pub open spec fn line_jumps(i: nat, links: Seq<(nat, nat, TargetView)>) -> Seq<(nat, nat, TargetView)> {
    by_col(links).map_values(|l: (nat, nat, TargetView)| (i, l.0, l.2))
}

/// Every link of the lines in reading order: line by line, and within a line
/// by column.
pub open spec fn jumps_of(ls: Seq<LineView>) -> Seq<(nat, nat, TargetView)>
    decreases ls.len(),
{
    if ls.len() == 0 {
        seq![]
    } else {
        jumps_of(ls.drop_last()) + line_jumps((ls.len() - 1) as nat, ls.last().2)
    }
}

fn copy_target(t: &Target) -> (r: Target)
    ensures
        target_view(r) == target_view(*t),
{
    match t {
        Target::Task(s) => Target::Task(s.clone()),
        Target::Url(s) => Target::Url(s.clone()),
        Target::Artifact(s) => Target::Artifact(s.clone()),
    }
}

fn sort_links(v: &Vec<(usize, usize, Target)>) -> (r: Vec<(usize, usize, Target)>)
    ensures
        links_view(r@) == by_col(links_view(v@)),
{
    let ghost s = links_view(v@);
    let mut r: Vec<(usize, usize, Target)> = Vec::new();
    let mut i: usize = 0;
    assert(s.take(0) =~= Seq::<(nat, nat, TargetView)>::empty());
    assert(links_view(r@) =~= Seq::<(nat, nat, TargetView)>::empty());
    while i < v.len()
        invariant
            i <= v.len(),
            s == links_view(v@),
            links_view(r@) == by_col(s.take(i as int)),
        decreases v.len() - i,
    {
        let x = (v[i].0, v[i].1, copy_target(&v[i].2));
        let ghost xv = link_view(x);
        assert(xv == s[i as int]);
        let ghost rv = links_view(r@);
        let mut k: usize = 0;
        while k < r.len() && !(x.0 < r[k].0)
            invariant
                k <= r.len(),
                rv == links_view(r@),
                xv == link_view(x),
                col_slot(rv, xv, 0) == col_slot(rv, xv, k as int),
            decreases r.len() - k,
        {
            k += 1;
        }
        r.insert(k, x);
        proof {
            let t = s.take(i + 1);
            assert(t.drop_last() =~= s.take(i as int));
            assert(t.last() == xv);
            assert(links_view(r@) =~= rv.insert(k as int, xv));
        }
        i += 1;
    }
    assert(s.take(v.len() as int) =~= s);
    r
}

/// Flatten every link across the lines, in reading order.
pub fn jumplist(lines: &[DLine]) -> (out: Vec<Jump>)
    ensures
        out@.map_values(|j: Jump| jump_view(j)) == jumps_of(dline_views(lines@)),
{
    let ghost ls = dline_views(lines@);
    let mut out: Vec<Jump> = Vec::new();
    let mut i: usize = 0;
    assert(out@.map_values(|j: Jump| jump_view(j)) =~= jumps_of(ls.take(0)));
    while i < lines.len()
        invariant
            i <= lines.len(),
            ls == dline_views(lines@),
            out@.map_values(|j: Jump| jump_view(j)) == jumps_of(ls.take(i as int)),
        decreases lines.len() - i,
    {
        let sorted = sort_links(&lines[i].links);
        let ghost sv = links_view(sorted@);
        let ghost base = out@.map_values(|j: Jump| jump_view(j));
        let ghost g = |l: (nat, nat, TargetView)| (i as nat, l.0, l.2);
        let mut j: usize = 0;
        assert(out@.map_values(|j: Jump| jump_view(j)) =~= base + sv.take(0).map_values(g));
        while j < sorted.len()
            invariant
                j <= sorted.len(),
                sv == links_view(sorted@),
                g == (|l: (nat, nat, TargetView)| (i as nat, l.0, l.2)),
                out@.map_values(|j: Jump| jump_view(j)) == base + sv.take(j as int).map_values(g),
            decreases sorted.len() - j,
        {
            let ghost before = out@.map_values(|j: Jump| jump_view(j));
            let jmp = Jump { line: i, col: sorted[j].0, target: copy_target(&sorted[j].2) };
            out.push(jmp);
            assert(jump_view(jmp) == g(sv[j as int]));
            assert(out@.map_values(|j: Jump| jump_view(j)) =~= before.push(jump_view(jmp)));
            assert(sv.take(j + 1).map_values(g) =~= sv.take(j as int).map_values(g).push(g(sv[j as int])));
            j += 1;
        }
        proof {
            assert(sv.take(sorted.len() as int) =~= sv);
            let t = ls.take(i + 1);
            assert(t.drop_last() =~= ls.take(i as int));
            assert(t.last() == ls[i as int]);
            assert(ls[i as int].2 == links_view(lines@[i as int].links@));
            assert(line_jumps(i as nat, t.last().2) =~= sv.map_values(g));
        }
        i += 1;
    }
    assert(ls.take(lines.len() as int) =~= ls);
    out
}

} // verus!
