//! The frontmatter parser: a deliberately small fast path over the YAML
//! subset the serializer writes (scalars and simple lists). Keys it does not
//! model are kept verbatim so a round trip never drops them.

use vstd::prelude::*;
use crate::text::{
    chars_of, string_of, slice, eq_str, trim, trim_start, trim_seq, trim_start_seq, lines,
    lines_seq, split_char, split_seq, find, first_from, occurs_at, starts_with, has_prefix,
    is_digit, digit, lemma_first_from,
};
use crate::refs::{replace, replace_seq};
use crate::model::{Status, Task, TaskView, strs, ostr};

verus! {

/// A single pair of matching surrounding quotes stripped (after trimming);
/// inside single quotes, `''` stands for `'`.
pub open spec fn unquote_spec(raw: Seq<char>) -> Seq<char> {
    let s = trim_seq(raw);
    if s.len() >= 2 && s[0] == '"' && s.last() == '"' {
        s.subrange(1, s.len() - 1)
    } else if s.len() >= 2 && s[0] == '\'' && s.last() == '\'' {
        replace_seq(s.subrange(1, s.len() - 1), seq!['\'', '\''], seq!['\''])
    } else {
        s
    }
}

pub fn unquote(raw: &[char]) -> (r: Vec<char>)
    ensures
        r@ == unquote_spec(raw@),
{
    let s = trim(raw);
    let n = s.len();
    if n >= 2 && s[0] == '"' && s[n - 1] == '"' {
        slice(&s, 1, n - 1)
    } else if n >= 2 && s[0] == '\'' && s[n - 1] == '\'' {
        let inner = slice(&s, 1, n - 1);
        let mut qq: Vec<char> = Vec::new();
        qq.push('\'');
        qq.push('\'');
        let mut q: Vec<char> = Vec::new();
        q.push('\'');
        assert(qq@ =~= seq!['\'', '\'']);
        assert(q@ =~= seq!['\'']);
        replace(&inner, &qq, &q)
    } else {
        s
    }
}

pub open spec fn non_empty_spec(s: Seq<char>) -> Option<Seq<char>> {
    if s.len() == 0 {
        None
    } else {
        Some(s)
    }
}

/// `None` for an empty string.
pub fn non_empty(s: Vec<char>) -> (r: Option<String>)
    ensures
        ostr(r) == non_empty_spec(s@),
{
    if s.len() == 0 {
        None
    } else {
        Some(string_of(&s))
    }
}

/// `[a, b, c]`: the unquoted, non-empty comma-separated items; `None` when
/// the value is not bracketed (a block list follows instead).
pub open spec fn inline_list_spec(value: Seq<char>) -> Option<Seq<Seq<char>>> {
    if value.len() >= 2 && value[0] == '[' && value.last() == ']' {
        Some(
            split_seq(value.subrange(1, value.len() - 1), ',').map_values(
                |p: Seq<char>| unquote_spec(p),
            ).filter(|p: Seq<char>| p.len() > 0),
        )
    } else {
        None
    }
}

pub fn parse_inline_list(value: &[char]) -> (r: Option<Vec<String>>)
    ensures
        match r {
            Some(v) => inline_list_spec(value@) == Some(strs(v@)),
            None => inline_list_spec(value@) is None,
        },
{
    let n = value.len();
    if !(n >= 2 && value[0] == '[' && value[n - 1] == ']') {
        return None;
    }
    let inner = slice(value, 1, n - 1);
    let pieces = split_char(&inner, ',');
    let ghost ps = pieces@.map_values(|p: Vec<char>| p@);
    let ghost f = |p: Seq<char>| unquote_spec(p);
    let ghost keep = |p: Seq<char>| p.len() > 0;
    let mut out: Vec<String> = Vec::new();
    let mut i: usize = 0;
    assert(ps.take(0).map_values(f).filter(keep) =~= Seq::<Seq<char>>::empty());
    assert(strs(out@) =~= Seq::<Seq<char>>::empty());
    while i < pieces.len()
        invariant
            i <= pieces.len(),
            ps == pieces@.map_values(|p: Vec<char>| p@),
            f == (|p: Seq<char>| unquote_spec(p)),
            keep == (|p: Seq<char>| p.len() > 0),
            strs(out@) == ps.take(i as int).map_values(f).filter(keep),
        decreases pieces.len() - i,
    {
        let u = unquote(&pieces[i]);
        proof {
            assert(ps.take(i + 1).map_values(f) =~= ps.take(i as int).map_values(f).push(u@));
            ps.take(i as int).map_values(f).lemma_filter_push(u@, keep);
        }
        if u.len() > 0 {
            let ghost before = out@;
            out.push(string_of(&u));
            assert(strs(out@) =~= strs(before).push(u@));
        }
        i += 1;
    }
    assert(ps.take(pieces.len() as int) == ps);
    Some(out)
}

/// `text` starts with a `---` line (LF or CRLF).
pub open spec fn front_rest(text: Seq<char>) -> Option<Seq<char>> {
    if starts_with(text, "---\n"@) {
        Some(text.skip(4))
    } else if starts_with(text, "---\r\n"@) {
        Some(text.skip(5))
    } else {
        None
    }
}

/// `s` without its leading run of `\r`/`\n`.
pub open spec fn trim_newlines_start(s: Seq<char>) -> Seq<char>
    decreases s.len(),
{
    if s.len() > 0 && (s[0] == '\r' || s[0] == '\n') {
        trim_newlines_start(s.drop_first())
    } else {
        s
    }
}

/// `---\n<frontmatter>\n---<rest>` split into (frontmatter, body): the
/// frontmatter ends at the first `\n---`, and the body is what follows those
/// four characters with leading line breaks removed.
pub open spec fn split_frontmatter_spec(text: Seq<char>) -> Option<(Seq<char>, Seq<char>)> {
    match front_rest(text) {
        Some(rest) => match first_from(rest, "\n---"@, 0) {
            Some(end) => Some((rest.take(end), trim_newlines_start(rest.skip(end + 4)))),
            None => None,
        },
        None => None,
    }
}

pub fn split_frontmatter(text: &[char]) -> (r: Option<(Vec<char>, Vec<char>)>)
    ensures
        match r {
            Some((f, b)) => split_frontmatter_spec(text@) == Some((f@, b@)),
            None => split_frontmatter_spec(text@) is None,
        },
{
    let lf = chars_of("---\n");
    let crlf = chars_of("---\r\n");
    proof {
        reveal_strlit("---\n");
        reveal_strlit("---\r\n");
    }
    let rest = if has_prefix(text, &lf) {
        slice(text, 4, text.len())
    } else if has_prefix(text, &crlf) {
        slice(text, 5, text.len())
    } else {
        return None;
    };
    let pat = chars_of("\n---");
    proof {
        reveal_strlit("\n---");
        lemma_first_from(rest@, pat@, 0);
    }
    match find(&rest, &pat) {
        Some(end) => {
            let front = slice(&rest, 0, end);
            let mut i = end + 4;
            assert(rest@.skip(i as int) == rest@.skip(end + 4));
            while i < rest.len() && (rest[i] == '\r' || rest[i] == '\n')
                invariant
                    end + 4 <= i <= rest.len(),
                    trim_newlines_start(rest@.skip(end + 4)) == trim_newlines_start(
                        rest@.skip(i as int),
                    ),
                decreases rest.len() - i,
            {
                assert(rest@.skip(i as int).drop_first() == rest@.skip(i + 1));
                i += 1;
            }
            let body = slice(&rest, i, rest.len());
            assert(front@ == rest@.take(end as int));
            Some((front, body))
        },
        None => None,
    }
}

/// The `u8` a decimal string denotes (`str::parse::<u8>`: an optional `+`,
/// then at least one digit, with a value of at most 255).
pub open spec fn digits_value(s: Seq<char>) -> nat
    decreases s.len(),
{
    if s.len() == 0 {
        0
    } else {
        digits_value(s.drop_last()) * 10 + (s.last() as nat - '0' as nat) as nat
    }
}

/// `s` without one leading `+`.
pub open spec fn u8_body(s: Seq<char>) -> Seq<char> {
    if s.len() > 0 && s[0] == '+' {
        s.drop_first()
    } else {
        s
    }
}

pub open spec fn parse_u8_spec(s: Seq<char>) -> Option<u8> {
    let b = u8_body(s);
    if b.len() > 0 && (forall|i: int| 0 <= i < b.len() ==> is_digit(b[i])) && digits_value(b)
        <= 255 {
        Some(digits_value(b) as u8)
    } else {
        None
    }
}

proof fn lemma_digits_value_mono(s: Seq<char>, k: int)
    requires
        0 <= k <= s.len(),
        forall|i: int| 0 <= i < s.len() ==> is_digit(s[i]),
    ensures
        digits_value(s.take(k)) <= digits_value(s),
    decreases s.len(),
{
    if k < s.len() {
        assert(s.drop_last().take(k) == s.take(k));
        lemma_digits_value_mono(s.drop_last(), k);
    } else {
        assert(s.take(k) == s);
    }
}

pub fn parse_u8(s: &[char]) -> (r: Option<u8>)
    ensures
        r == parse_u8_spec(s@),
{
    let from: usize = if s.len() > 0 && s[0] == '+' { 1 } else { 0 };
    let ghost b = u8_body(s@);
    assert(b == s@.skip(from as int));
    if from >= s.len() {
        return None;
    }
    let mut v: u64 = 0;
    let mut i = from;
    assert(b.take(0) =~= Seq::<char>::empty());
    while i < s.len()
        invariant
            from <= i <= s.len(),
            b == s@.skip(from as int),
            b == u8_body(s@),
            forall|j: int| from <= j < i ==> is_digit(s@[j]),
            v == digits_value(b.take(i - from)),
            v <= 255,
        decreases s.len() - i,
    {
        if !digit(s[i]) {
            assert(!is_digit(b[i - from]));
            assert(!(forall|j: int| 0 <= j < b.len() ==> is_digit(b[j])));
            assert(parse_u8_spec(s@) is None);
            return None;
        }
        let d = (s[i] as u32 - '0' as u32) as u64;
        proof {
            assert(b.take(i - from + 1).drop_last() == b.take(i - from));
            assert(b.take(i - from + 1).last() == s@[i as int]);
        }
        v = v * 10 + d;
        assert(v == digits_value(b.take(i - from + 1)));
        if v > 255 {
            proof {
                if forall|j: int| 0 <= j < b.len() ==> is_digit(b[j]) {
                    lemma_digits_value_mono(b, i - from + 1);
                    assert(digits_value(b) > 255);
                }
                assert(parse_u8_spec(s@) is None);
            }
            return None;
        }
        i += 1;
    }
    assert(b.take(s.len() - from) == b);
    Some(v as u8)
}

/// Which block list subsequent `- item` lines belong to.
#[derive(PartialEq, Eq, Clone, Copy, Structural)]
pub enum Pending {
    Nothing,
    Labels,
    Depends,
    Extra,
}

/// The parser's state after some frontmatter lines.
pub struct FrontState {
    pub id: Seq<char>,
    pub title: Seq<char>,
    pub kind: Seq<char>,
    pub priority: u8,
    pub created: Option<Seq<char>>,
    pub updated: Option<Seq<char>>,
    pub parent: Option<Seq<char>>,
    pub source: Option<Seq<char>>,
    pub needs: Option<Seq<char>>,
    pub verify: Option<Seq<char>>,
    pub labels: Seq<Seq<char>>,
    pub depends_on: Seq<Seq<char>>,
    pub extra: Seq<Seq<char>>,
    pub pending: Pending,
}

pub open spec fn front_init() -> FrontState {
    FrontState {
        id: seq![],
        title: seq![],
        kind: "task"@,
        priority: 3,
        created: None,
        updated: None,
        parent: None,
        source: None,
        needs: None,
        verify: None,
        labels: seq![],
        depends_on: seq![],
        extra: seq![],
        pending: Pending::Nothing,
    }
}

/// A `key: value` line's effect (the key and value both trimmed, the key
/// being everything before the line's first `:`).
pub open spec fn front_field(st: FrontState, raw: Seq<char>, key: Seq<char>, value: Seq<char>) -> FrontState {
    if key == "id"@ {
        FrontState { id: unquote_spec(value), ..st }
    } else if key == "title"@ {
        FrontState { title: unquote_spec(value), ..st }
    } else if key == "type"@ {
        FrontState { kind: unquote_spec(value), ..st }
    } else if key == "priority"@ {
        FrontState {
            priority: match parse_u8_spec(value) {
                Some(p) => p,
                None => 3,
            },
            ..st
        }
    } else if key == "created"@ {
        FrontState { created: non_empty_spec(unquote_spec(value)), ..st }
    } else if key == "updated"@ {
        FrontState { updated: non_empty_spec(unquote_spec(value)), ..st }
    } else if key == "parent"@ {
        FrontState { parent: non_empty_spec(unquote_spec(value)), ..st }
    } else if key == "source"@ {
        FrontState { source: non_empty_spec(unquote_spec(value)), ..st }
    } else if key == "needs"@ {
        FrontState { needs: non_empty_spec(unquote_spec(value)), ..st }
    } else if key == "verify"@ {
        FrontState { verify: non_empty_spec(unquote_spec(value)), ..st }
    } else if key == "labels"@ {
        match inline_list_spec(value) {
            Some(l) => FrontState { labels: l, ..st },
            None => FrontState { pending: Pending::Labels, ..st },
        }
    } else if key == "depends_on"@ {
        match inline_list_spec(value) {
            Some(l) => FrontState { depends_on: l, ..st },
            None => FrontState { pending: Pending::Depends, ..st },
        }
    } else {
        FrontState {
            extra: st.extra.push(raw),
            pending: if value.len() == 0 {
                Pending::Extra
            } else {
                st.pending
            },
            ..st
        }
    }
}

/// One frontmatter line's effect on the parser state.
pub open spec fn front_step(st: FrontState, raw: Seq<char>) -> FrontState {
    let trimmed = trim_start_seq(raw);
    if starts_with(trimmed, seq!['-', ' ']) && st.pending != Pending::Nothing {
        let item = trimmed.skip(2);
        match st.pending {
            Pending::Labels => FrontState { labels: st.labels.push(unquote_spec(trim_seq(item))), ..st },
            Pending::Depends => FrontState {
                depends_on: st.depends_on.push(unquote_spec(trim_seq(item))),
                ..st
            },
            _ => FrontState { extra: st.extra.push(raw), ..st },
        }
    } else {
        let st = FrontState { pending: Pending::Nothing, ..st };
        match first_from(raw, seq![':'], 0) {
            Some(c) => front_field(st, raw, trim_seq(raw.take(c)), trim_seq(raw.skip(c + 1))),
            None => st,
        }
    }
}

/// The state after the given frontmatter lines.
pub open spec fn front_fold(ls: Seq<Seq<char>>) -> FrontState
    decreases ls.len(),
{
    if ls.len() == 0 {
        front_init()
    } else {
        front_step(front_fold(ls.drop_last()), ls.last())
    }
}

/// The task a file's text holds, given the status directory it was found in;
/// `None` without usable frontmatter or without an id.
pub open spec fn parse_task_spec(text: Seq<char>, status: Status) -> Option<TaskView> {
    match split_frontmatter_spec(text) {
        Some((front, body)) => {
            let st = front_fold(lines_seq(front));
            if st.id.len() == 0 {
                None
            } else {
                Some(
                    TaskView {
                        id: st.id,
                        title: st.title,
                        kind: st.kind,
                        priority: st.priority,
                        status,
                        created: st.created,
                        updated: st.updated,
                        parent: st.parent,
                        labels: st.labels,
                        depends_on: st.depends_on,
                        source: st.source,
                        needs: st.needs,
                        verify: st.verify,
                        extra: st.extra,
                        body: trim_seq(body),
                    },
                )
            }
        },
        None => None,
    }
}

/// Parse one task file. `None` if it has no usable frontmatter or id.
pub fn parse_task(text: &str, status: Status) -> (r: Option<Task>)
    ensures
        match r {
            Some(t) => parse_task_spec(text@, status) == Some(t@),
            None => parse_task_spec(text@, status) is None,
        },
{
    let chars = chars_of(text);
    let (front, body) = match split_frontmatter(&chars) {
        Some(p) => p,
        None => return None,
    };
    let ls = lines(&front);
    let ghost lv = ls@.map_values(|p: Vec<char>| p@);
    let mut id: Vec<char> = Vec::new();
    let mut title: Vec<char> = Vec::new();
    let mut kind: Vec<char> = chars_of("task");
    let mut priority: u8 = 3;
    let mut created: Option<String> = None;
    let mut updated: Option<String> = None;
    let mut parent: Option<String> = None;
    let mut source: Option<String> = None;
    let mut needs: Option<String> = None;
    let mut verify: Option<String> = None;
    let mut labels: Vec<String> = Vec::new();
    let mut depends_on: Vec<String> = Vec::new();
    let mut extra: Vec<String> = Vec::new();
    let mut pending = Pending::Nothing;
    let mut i: usize = 0;
    let dash = chars_of("- ");
    proof {
        reveal_strlit("- ");
        assert(dash@ =~= seq!['-', ' ']);
    }
    while i < ls.len()
        invariant
            i <= ls.len(),
            lv == ls@.map_values(|p: Vec<char>| p@),
            dash@ == seq!['-', ' '],
            ({
                let st = front_fold(lv.take(i as int));
                &&& st.id == id@
                &&& st.title == title@
                &&& st.kind == kind@
                &&& st.priority == priority
                &&& st.created == ostr(created)
                &&& st.updated == ostr(updated)
                &&& st.parent == ostr(parent)
                &&& st.source == ostr(source)
                &&& st.needs == ostr(needs)
                &&& st.verify == ostr(verify)
                &&& st.labels == strs(labels@)
                &&& st.depends_on == strs(depends_on@)
                &&& st.extra == strs(extra@)
                &&& st.pending == pending
            }),
        decreases ls.len() - i,
    {
        proof {
            assert(lv.take(i + 1).drop_last() == lv.take(i as int));
            assert(lv.take(i + 1).last() == lv[i as int]);
        }
        let raw = &ls[i];
        let trimmed = trim_start(raw);
        if has_prefix(&trimmed, &dash) && pending != Pending::Nothing {
            let item = slice(&trimmed, 2, trimmed.len());
            assert(item@ == trimmed@.skip(2));
            match pending {
                Pending::Labels => {
                    let u = unquote(&trim(&item));
                    let ghost before = labels@;
                    labels.push(string_of(&u));
                    assert(strs(labels@) =~= strs(before).push(u@));
                },
                Pending::Depends => {
                    let u = unquote(&trim(&item));
                    let ghost before = depends_on@;
                    depends_on.push(string_of(&u));
                    assert(strs(depends_on@) =~= strs(before).push(u@));
                },
                _ => {
                    let ghost before = extra@;
                    extra.push(string_of(raw));
                    assert(strs(extra@) =~= strs(before).push(raw@));
                },
            }
        } else {
            pending = Pending::Nothing;
            let mut colon: Vec<char> = Vec::new();
            colon.push(':');
            assert(colon@ =~= seq![':']);
            match find(raw, &colon) {
                Some(c) => {
                    proof {
                        lemma_first_from(raw@, colon@, 0);
                        assert(occurs_at(raw@, colon@, c as int));
                    }
                    assert(c < raw.len());
                    let key = trim(&slice(raw, 0, c));
                    let value = trim(&slice(raw, c + 1, raw.len()));
                    assert(raw@.take(c as int) == raw@.subrange(0, c as int));
                    assert(raw@.skip(c + 1) == raw@.subrange(c + 1, raw@.len() as int));
                    if eq_str(&key, "id") {
                        id = unquote(&value);
                    } else if eq_str(&key, "title") {
                        title = unquote(&value);
                    } else if eq_str(&key, "type") {
                        kind = unquote(&value);
                    } else if eq_str(&key, "priority") {
                        priority = match parse_u8(&value) {
                            Some(p) => p,
                            None => 3,
                        };
                    } else if eq_str(&key, "created") {
                        created = non_empty(unquote(&value));
                    } else if eq_str(&key, "updated") {
                        updated = non_empty(unquote(&value));
                    } else if eq_str(&key, "parent") {
                        parent = non_empty(unquote(&value));
                    } else if eq_str(&key, "source") {
                        source = non_empty(unquote(&value));
                    } else if eq_str(&key, "needs") {
                        needs = non_empty(unquote(&value));
                    } else if eq_str(&key, "verify") {
                        verify = non_empty(unquote(&value));
                    } else if eq_str(&key, "labels") {
                        match parse_inline_list(&value) {
                            Some(l) => {
                                labels = l;
                            },
                            None => {
                                pending = Pending::Labels;
                            },
                        }
                    } else if eq_str(&key, "depends_on") {
                        match parse_inline_list(&value) {
                            Some(l) => {
                                depends_on = l;
                            },
                            None => {
                                pending = Pending::Depends;
                            },
                        }
                    } else {
                        let ghost before = extra@;
                        extra.push(string_of(raw));
                        assert(strs(extra@) =~= strs(before).push(raw@));
                        if value.len() == 0 {
                            pending = Pending::Extra;
                        }
                    }
                },
                None => {},
            }
        }
        i += 1;
    }
    assert(lv.take(ls.len() as int) == lv);
    if id.len() == 0 {
        return None;
    }
    let b = trim(&body);
    Some(
        Task {
            id: string_of(&id),
            title: string_of(&title),
            kind: string_of(&kind),
            priority,
            status,
            created,
            updated,
            parent,
            labels,
            depends_on,
            source,
            needs,
            verify,
            extra,
            body: string_of(&b),
        },
    )
}

} // verus!
