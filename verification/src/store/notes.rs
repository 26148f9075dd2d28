//! Timestamped note blocks inside a task body:
//! `<body>\n\n---\n▸ <ts>[ [<actor>]]\n<note>`.

use vstd::prelude::*;
use crate::text::{
    chars_of, string_of, slice, trim_end, trim, lines, join, copy_chars, push_all, push_str,
    trim_end_seq, trim_seq, lines_seq, join_seq, occurs_at, starts_with, match_at, has_prefix,
};

verus! {

pub open spec fn note_rule() -> Seq<char> {
    seq!['-', '-', '-']
}

/// The marker that opens a note's head line: `▸ `.
pub open spec fn note_mark() -> Seq<char> {
    seq!['\u{25b8}', ' ']
}

/// A note marker line's payload: `<ts>` or `<ts> [<actor>]` (the actor trimmed,
/// and only when it is not blank).
pub open spec fn note_head_spec(ts: Seq<char>, actor: Option<Seq<char>>) -> Seq<char> {
    match actor {
        Some(a) => if trim_seq(a).len() > 0 {
            ts + seq![' ', '['] + trim_seq(a) + seq![']']
        } else {
            ts
        },
        None => ts,
    }
}

/// The body `append_note` produces.
pub open spec fn append_note_spec(
    body: Seq<char>,
    ts: Seq<char>,
    actor: Option<Seq<char>>,
    note: Seq<char>,
) -> Seq<char> {
    let desc = trim_end_seq(body);
    let sep = if desc.len() == 0 {
        seq![]
    } else {
        seq!['\n', '\n']
    };
    desc + sep + note_rule() + seq!['\n'] + note_mark() + note_head_spec(ts, actor) + seq!['\n']
        + note
}

pub open spec fn ostr_ref(o: Option<&str>) -> Option<Seq<char>> {
    match o {
        Some(s) => Some(s@),
        None => None,
    }
}

/// Format a note marker line's payload: `<ts>` or `<ts> [<actor>]`.
pub fn note_head(ts: &str, actor: Option<&str>) -> (r: String)
    ensures
        r@ == note_head_spec(ts@, ostr_ref(actor)),
{
    let mut out = chars_of(ts);
    match actor {
        Some(a) => {
            let t = trim(&chars_of(a));
            if t.len() > 0 {
                out.push(' ');
                out.push('[');
                push_all(&mut out, &t);
                out.push(']');
                assert(out@ =~= ts@ + seq![' ', '['] + t@ + seq![']']);
            }
        },
        None => {},
    }
    string_of(&out)
}

/// Append a timestamped note block to a body (no leading blank line when the
/// body is empty). An absent or blank actor writes the bare `▸ <ts>` form.
pub fn append_note(body: &str, ts: &str, actor: Option<&str>, note: &str) -> (r: String)
    ensures
        r@ == append_note_spec(body@, ts@, ostr_ref(actor), note@),
{
    let desc = trim_end(&chars_of(body));
    let mut out = copy_chars(&desc);
    if desc.len() > 0 {
        out.push('\n');
        out.push('\n');
    }
    out.push('-');
    out.push('-');
    out.push('-');
    out.push('\n');
    out.push('\u{25b8}');
    out.push(' ');
    let head = note_head(ts, actor);
    push_str(&mut out, head.as_str());
    out.push('\n');
    push_str(&mut out, note);
    let ghost sep = if desc@.len() == 0 {
        Seq::<char>::empty()
    } else {
        seq!['\n', '\n']
    };
    assert(out@ =~= desc@ + sep + note_rule() + seq!['\n'] + note_mark() + head@ + seq!['\n']
        + note@);
    string_of(&out)
}

/// A single timestamped note parsed back out of a task body.
#[derive(Debug, Clone, PartialEq, Eq)]
pub struct NoteEntry {
    pub ts: String,
    /// The actor that wrote the note, if the marker line carried `[actor]`.
    pub actor: Option<String>,
    pub text: String,
}

pub open spec fn note_view(n: NoteEntry) -> (Seq<char>, Option<Seq<char>>, Seq<char>) {
    (
        n.ts@,
        match n.actor {
            Some(a) => Some(a@),
            None => None,
        },
        n.text@,
    )
}

/// The last position at or below `k` where `pat` occurs.
pub open spec fn last_from(s: Seq<char>, pat: Seq<char>, k: int) -> Option<int>
    decreases k + 1,
{
    if k < 0 {
        None
    } else if occurs_at(s, pat, k) {
        Some(k)
    } else {
        last_from(s, pat, k - 1)
    }
}

pub open spec fn actor_open() -> Seq<char> {
    seq![' ', '[']
}

/// Split a marker payload into its timestamp and optional trailing `[actor]`:
/// a payload ending in `]` with an earlier ` [` is `<ts> [<actor>]` (split at
/// the last ` [`, the timestamp trimmed); anything else is a bare timestamp.
pub open spec fn split_note_head_spec(head: Seq<char>) -> (Seq<char>, Option<Seq<char>>) {
    if head.len() > 0 && head.last() == ']' {
        match last_from(head, actor_open(), head.len() - 2) {
            Some(idx) => (trim_seq(head.take(idx)), Some(head.subrange(idx + 2, head.len() - 1))),
            None => (head, None),
        }
    } else {
        (head, None)
    }
}

pub proof fn lemma_last_from(s: Seq<char>, pat: Seq<char>, k: int)
    ensures
        last_from(s, pat, k) matches Some(i) ==> 0 <= i <= k && occurs_at(s, pat, i),
    decreases k + 1,
{
    if k >= 0 && !occurs_at(s, pat, k) {
        lemma_last_from(s, pat, k - 1);
    }
}

/// Split a note marker line's payload into its timestamp and optional actor.
pub fn split_note_head(head: &str) -> (r: (String, Option<String>))
    ensures
        (r.0@, match r.1 {
            Some(a) => Some(a@),
            None => None,
        }) == split_note_head_spec(head@),
{
    let h = chars_of(head);
    if h.len() > 0 && h[h.len() - 1] == ']' {
        let mut pat: Vec<char> = Vec::new();
        pat.push(' ');
        pat.push('[');
        assert(pat@ =~= actor_open());
        // search downward from the last place ` [` can start before the `]`
        let mut k: usize = h.len() - 1;
        while k > 0
            invariant
                h@ == head@,
                pat@ == actor_open(),
                h.len() > 0,
                h@[h.len() - 1] == ']',
                0 <= k <= h.len() - 1,
                last_from(h@, pat@, h.len() - 2) == last_from(h@, pat@, k - 1),
            decreases k,
        {
            if match_at(&h, &pat, k - 1) {
                let idx = k - 1;
                proof {
                    lemma_last_from(h@, pat@, h.len() - 2);
                    assert(last_from(h@, pat@, k - 1) == Some(idx as int));
                    assert(h@.subrange(idx as int, idx + 2)[1] == '[');
                    assert(h@[idx + 1] == '[');
                    assert(idx + 2 <= h.len() - 1);
                }
                let ts = trim(&slice(&h, 0, idx));
                let actor = slice(&h, idx + 2, h.len() - 1);
                assert(h@.take(idx as int) == h@.subrange(0, idx as int));
                return (string_of(&ts), Some(string_of(&actor)));
            }
            k -= 1;
        }
    }
    (string_of(&h), None)
}

/// Line `i` opens a note: a `---` line followed by a line starting `▸ `.
pub open spec fn is_delim(ls: Seq<Seq<char>>, i: int) -> bool {
    &&& 0 <= i
    &&& i + 1 < ls.len()
    &&& trim_end_seq(ls[i]) == note_rule()
    &&& starts_with(ls[i + 1], note_mark())
}

/// The first note delimiter at or after `j`, or the line count.
pub open spec fn next_delim(ls: Seq<Seq<char>>, j: int) -> int
    decreases ls.len() - j,
{
    if j < 0 || j >= ls.len() {
        ls.len() as int
    } else if is_delim(ls, j) {
        j
    } else {
        next_delim(ls, j + 1)
    }
}

/// The note a delimiter at `i` opens, given the next delimiter `j`.
pub open spec fn note_at(ls: Seq<Seq<char>>, i: int, j: int) -> (Seq<char>, Option<Seq<char>>, Seq<char>) {
    let head = split_note_head_spec(trim_seq(ls[i + 1].skip(2)));
    (head.0, head.1, trim_seq(join_seq(ls.subrange(i + 2, j), seq!['\n'])))
}

/// The notes found from line `i` on.
pub open spec fn notes_from(ls: Seq<Seq<char>>, i: int) -> Seq<(Seq<char>, Option<Seq<char>>, Seq<char>)>
    decreases ls.len() - i,
{
    if i < 0 || i >= ls.len() {
        seq![]
    } else if is_delim(ls, i) {
        let j = next_delim(ls, i + 2);
        if j <= i || j > ls.len() {
            seq![]
        } else {
            seq![note_at(ls, i, j)] + notes_from(ls, j)
        }
    } else {
        notes_from(ls, i + 1)
    }
}

/// The notes of a body, in order.
pub open spec fn parse_notes_spec(body: Seq<char>) -> Seq<(Seq<char>, Option<Seq<char>>, Seq<char>)> {
    notes_from(lines_seq(body), 0)
}

pub proof fn lemma_next_delim(ls: Seq<Seq<char>>, j: int)
    requires
        0 <= j <= ls.len(),
    ensures
        j <= next_delim(ls, j) <= ls.len(),
        next_delim(ls, j) < ls.len() ==> is_delim(ls, next_delim(ls, j)),
    decreases ls.len() - j,
{
    if j < ls.len() && !is_delim(ls, j) {
        lemma_next_delim(ls, j + 1);
    }
}

fn delim_at(ls: &Vec<Vec<char>>, i: usize) -> (b: bool)
    ensures
        b == is_delim(ls@.map_values(|p: Vec<char>| p@), i as int),
{
    if i >= ls.len() || i + 1 >= ls.len() {
        return false;
    }
    let a = trim_end(&ls[i]);
    let is_rule = a.len() == 3 && a[0] == '-' && a[1] == '-' && a[2] == '-';
    assert(is_rule == (a@ == note_rule())) by {
        if a.len() == 3 && a@ == note_rule() {
            assert(a@[0] == '-' && a@[1] == '-' && a@[2] == '-');
        }
        if is_rule {
            assert(a@ =~= note_rule());
        }
    }
    if !is_rule {
        return false;
    }
    let mut m: Vec<char> = Vec::new();
    m.push('\u{25b8}');
    m.push(' ');
    assert(m@ =~= note_mark());
    has_prefix(&ls[i + 1], &m)
}

/// Parse the timestamped note blocks written by `append_note` out of a body.
/// A block begins at a line `---` immediately followed by a line starting
/// with the note marker, and its text runs to the next such delimiter or the
/// end; plain description prose is skipped.
pub fn parse_notes(body: &str) -> (out: Vec<NoteEntry>)
    ensures
        out@.map_values(|n: NoteEntry| note_view(n)) == parse_notes_spec(body@),
{
    let ls = lines(&chars_of(body));
    let ghost v = ls@.map_values(|p: Vec<char>| p@);
    let mut out: Vec<NoteEntry> = Vec::new();
    let mut i: usize = 0;
    assert(out@.map_values(|n: NoteEntry| note_view(n)) =~= Seq::<(Seq<char>, Option<Seq<char>>, Seq<char>)>::empty());
    while i < ls.len()
        invariant
            v == ls@.map_values(|p: Vec<char>| p@),
            v == lines_seq(body@),
            i <= ls.len(),
            out@.map_values(|n: NoteEntry| note_view(n)) + notes_from(v, i as int) == notes_from(
                v,
                0,
            ),
        decreases ls.len() - i,
    {
        if delim_at(&ls, i) {
            let head_line = &ls[i + 1];
            let payload = trim(&slice(head_line, 2, head_line.len()));
            assert(head_line@.skip(2) == head_line@.subrange(2, head_line@.len() as int));
            let (ts, actor) = split_note_head(string_of(&payload).as_str());
            let mut j = i + 2;
            while j < ls.len() && !delim_at(&ls, j)
                invariant
                    i + 2 <= j <= ls.len(),
                    v == ls@.map_values(|p: Vec<char>| p@),
                    next_delim(v, i + 2) == next_delim(v, j as int),
                decreases ls.len() - j,
            {
                j += 1;
            }
            let mut part: Vec<Vec<char>> = Vec::new();
            let mut k = i + 2;
            while k < j
                invariant
                    i + 2 <= k <= j <= ls.len(),
                    v == ls@.map_values(|p: Vec<char>| p@),
                    part@.map_values(|p: Vec<char>| p@) == v.subrange(i + 2, k as int),
                decreases j - k,
            {
                let ghost before = part@;
                part.push(copy_chars(&ls[k]));
                proof {
                    assert(part@.map_values(|p: Vec<char>| p@) =~= before.map_values(
                        |p: Vec<char>| p@,
                    ).push(v[k as int]));
                    assert(v.subrange(i + 2, k + 1) =~= v.subrange(i + 2, k as int).push(
                        v[k as int],
                    ));
                }
                k += 1;
            }
            let mut nl: Vec<char> = Vec::new();
            nl.push('\n');
            assert(nl@ =~= seq!['\n']);
            let text = trim(&join(&part, &nl));
            let ghost before = out@;
            let entry = NoteEntry { ts, actor, text: string_of(&text) };
            out.push(entry);
            proof {
                lemma_next_delim(v, i + 2);
                assert(note_view(entry) == note_at(v, i as int, j as int));
                assert(out@.map_values(|n: NoteEntry| note_view(n)) =~= before.map_values(
                    |n: NoteEntry| note_view(n),
                ).push(note_at(v, i as int, j as int)));
            }
            i = j;
        } else {
            i += 1;
        }
    }
    assert(notes_from(v, i as int) == Seq::<(Seq<char>, Option<Seq<char>>, Seq<char>)>::empty());
    out
}

} // verus!
