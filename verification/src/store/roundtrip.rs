//! What a read gives back of a write: a task rendered to its file text parses
//! back to the same task.

use vstd::prelude::*;
use crate::text::{
    is_ws, trim_seq, trim_start_seq, trim_end_seq, lines_seq, split_seq, strip_cr, first_from,
    occurs_at, starts_with, lemma_first_from, lemma_split_step, lemma_split_none,
};
use crate::refs::replace_seq;
use crate::store::write::{
    verbatim_spec, items_spec, scalar_spec, needs_quotes_spec, indicator, field_line, opt_line,
    list_spec, frontmatter_spec, render_spec, dec_spec, digit_char_spec,
};
use crate::store::read::{
    parse_task_spec, split_frontmatter_spec, front_rest, trim_newlines_start, FrontState, Pending,
    front_step, front_field, front_fold, front_init, unquote_spec, inline_list_spec, parse_u8_spec,
    u8_body, digits_value,
};
use crate::model::TaskView;

verus! {

/// A line that line splitting hands back unchanged: no line break inside,
/// no carriage return at its end.
pub open spec fn clean_line(l: Seq<char>) -> bool {
    &&& forall|j: int| 0 <= j < l.len() ==> l[j] != '\n'
    &&& !(l.len() > 0 && l.last() == '\r')
}

proof fn lemma_verbatim_front(ls: Seq<Seq<char>>)
    requires
        ls.len() > 0,
    ensures
        verbatim_spec(ls) == ls[0] + seq!['\n'] + verbatim_spec(ls.drop_first()),
    decreases ls.len(),
{
    if ls.len() == 1 {
        assert(ls.drop_last() =~= Seq::<Seq<char>>::empty());
        assert(ls.drop_first() =~= Seq::<Seq<char>>::empty());
        assert(verbatim_spec(ls.drop_last()) =~= Seq::<char>::empty());
        assert(verbatim_spec(ls.drop_first()) =~= Seq::<char>::empty());
        assert(ls.last() == ls[0]);
        assert(verbatim_spec(ls) == verbatim_spec(ls.drop_last()) + ls.last() + seq!['\n']);
        assert(verbatim_spec(ls) =~= ls[0] + seq!['\n']);
    } else {
        let a = ls.drop_last();
        lemma_verbatim_front(a);
        assert(a[0] == ls[0]);
        assert(a.drop_first() =~= ls.drop_first().drop_last());
        assert(ls.drop_first().last() == ls.last());
        assert(verbatim_spec(ls) =~= ls[0] + seq!['\n'] + verbatim_spec(ls.drop_first()));
    }
}

proof fn lemma_verbatim_concat(a: Seq<Seq<char>>, b: Seq<Seq<char>>)
    ensures
        verbatim_spec(a + b) == verbatim_spec(a) + verbatim_spec(b),
    decreases b.len(),
{
    if b.len() == 0 {
        assert(a + b =~= a);
        assert(verbatim_spec(a) + verbatim_spec(b) =~= verbatim_spec(a));
    } else {
        lemma_verbatim_concat(a, b.drop_last());
        assert((a + b).drop_last() =~= a + b.drop_last());
        assert((a + b).last() == b.last());
        assert(verbatim_spec(a + b) =~= verbatim_spec(a) + verbatim_spec(b));
    }
}

proof fn lemma_split_verbatim(ls: Seq<Seq<char>>)
    requires
        forall|i: int| 0 <= i < ls.len() ==> clean_line(#[trigger] ls[i]),
    ensures
        split_seq(verbatim_spec(ls), '\n') == ls + seq![Seq::<char>::empty()],
    decreases ls.len(),
{
    if ls.len() == 0 {
        lemma_split_none(Seq::<char>::empty(), '\n');
        assert(verbatim_spec(ls) =~= Seq::<char>::empty());
        assert(ls + seq![Seq::<char>::empty()] =~= seq![Seq::<char>::empty()]);
    } else {
        lemma_verbatim_front(ls);
        let s = verbatim_spec(ls);
        let l0 = ls[0];
        assert(clean_line(l0));
        let i = l0.len() as int;
        assert(s[i] == '\n');
        assert forall|j: int| 0 <= j < i implies s[j] != '\n' by {
            assert(s[j] == l0[j]);
        }
        lemma_split_step(s, '\n', i);
        assert(s.take(i) =~= l0);
        assert(s.skip(i + 1) =~= verbatim_spec(ls.drop_first()));
        assert forall|k: int| 0 <= k < ls.drop_first().len() implies clean_line(#[trigger] ls.drop_first()[k]) by {
            assert(ls.drop_first()[k] == ls[k + 1]);
        }
        lemma_split_verbatim(ls.drop_first());
        assert(ls + seq![Seq::<char>::empty()] =~= seq![l0] + (ls.drop_first() + seq![Seq::<char>::empty()]));
    }
}

/// Clean lines, each ended by a line break, split back into themselves.
pub proof fn lemma_lines_verbatim(ls: Seq<Seq<char>>)
    requires
        forall|i: int| 0 <= i < ls.len() ==> clean_line(#[trigger] ls[i]),
    ensures
        lines_seq(verbatim_spec(ls)) == ls,
{
    lemma_split_verbatim(ls);
    let p = ls + seq![Seq::<char>::empty()];
    assert(p.last() =~= Seq::<char>::empty());
    assert(p.drop_last() =~= ls);
    assert forall|i: int| 0 <= i < ls.len() implies strip_cr(#[trigger] ls[i]) == ls[i] by {
        assert(clean_line(ls[i]));
    }
    assert(ls.map_values(|l: Seq<char>| strip_cr(l)) =~= ls);
}

proof fn lemma_no_quote_no_pair(v: Seq<char>)
    requires
        first_from(v, seq!['\''], 0) is None,
    ensures
        first_from(v, seq!['\'', '\''], 0) is None,
{
    lemma_first_from(v, seq!['\''], 0);
    lemma_first_from(v, seq!['\'', '\''], 0);
    if first_from(v, seq!['\'', '\''], 0) is Some {
        let j = first_from(v, seq!['\'', '\''], 0)->0;
        assert(v.subrange(j, j + 2)[0] == v[j]);
        assert(v.subrange(j, j + 1) =~= seq!['\'']);
        assert(occurs_at(v, seq!['\''], j));
    }
}

proof fn lemma_replace_step(s: Seq<char>, pat: Seq<char>, rep: Seq<char>, i: int)
    requires
        pat.len() > 0,
        first_from(s, pat, 0) == Some(i),
    ensures
        0 <= i,
        i + pat.len() <= s.len(),
        replace_seq(s, pat, rep) == s.take(i) + rep + replace_seq(s.skip(i + pat.len()), pat, rep),
{
    lemma_first_from(s, pat, 0);
}

proof fn lemma_first_is(s: Seq<char>, pat: Seq<char>, i: int)
    requires
        0 <= i,
        occurs_at(s, pat, i),
        forall|j: int| 0 <= j < i ==> !occurs_at(s, pat, j),
    ensures
        first_from(s, pat, 0) == Some(i),
{
    lemma_first_from(s, pat, 0);
    match first_from(s, pat, 0) {
        Some(k) => {
            if k < i {
                assert(!occurs_at(s, pat, k));
            } else if k > i {
                assert(!occurs_at(s, pat, i));
            }
        },
        None => {
            assert(!occurs_at(s, pat, i));
        },
    }
}

proof fn lemma_doubled_first(v: Seq<char>, i: int, tail: Seq<char>)
    requires
        0 <= i < v.len(),
        first_from(v, seq!['\''], 0) == Some(i),
    ensures
        first_from(v.take(i) + seq!['\'', '\''] + tail, seq!['\'', '\''], 0) == Some(i),
{
    let q = seq!['\''];
    let qq = seq!['\'', '\''];
    let r1 = v.take(i) + qq + tail;
    lemma_first_from(v, q, 0);
    assert(occurs_at(r1, qq, i)) by {
        assert(r1.subrange(i, i + 2) =~= qq);
    }
    assert forall|j: int| 0 <= j < i implies !occurs_at(r1, qq, j) by {
        if occurs_at(r1, qq, j) {
            assert(r1.subrange(j, j + 2)[0] == r1[j]);
            assert(r1[j] == v[j]);
            assert(v.subrange(j, j + 1) =~= seq![v[j]]);
            assert(occurs_at(v, q, j));
        }
    }
    lemma_first_is(r1, qq, i);
}

/// Doubling every `'` and then halving every `''` gives the text back.
pub proof fn lemma_quote_doubling(v: Seq<char>)
    ensures
        replace_seq(replace_seq(v, seq!['\''], seq!['\'', '\'']), seq!['\'', '\''], seq!['\'']) == v,
    decreases v.len(),
{
    let q = seq!['\''];
    let qq = seq!['\'', '\''];
    lemma_first_from(v, q, 0);
    match first_from(v, q, 0) {
        None => {
            lemma_no_quote_no_pair(v);
        },
        Some(i) => {
            lemma_replace_step(v, q, qq, i);
            let rest = v.skip(i + 1);
            let tail = replace_seq(rest, q, qq);
            let r1 = v.take(i) + qq + tail;
            assert(replace_seq(v, q, qq) == r1);
            lemma_doubled_first(v, i, tail);
            lemma_replace_step(r1, qq, q, i);
            assert(r1.take(i) =~= v.take(i));
            assert(r1.skip(i + 2) =~= tail);
            lemma_quote_doubling(rest);
            assert(v.subrange(i, i + 1)[0] == v[i]);
            assert(v =~= v.take(i) + q + rest);
        },
    }
}

proof fn lemma_trim_start_id(s: Seq<char>)
    requires
        s.len() > 0 ==> !is_ws(s[0]),
    ensures
        trim_start_seq(s) == s,
{
}

proof fn lemma_trim_end_id(s: Seq<char>)
    requires
        s.len() > 0 ==> !is_ws(s.last()),
    ensures
        trim_end_seq(s) == s,
{
}

/// A text with no white space at either end is its own trim.
pub proof fn lemma_trim_id(s: Seq<char>)
    requires
        s.len() > 0 ==> !is_ws(s[0]) && !is_ws(s.last()),
    ensures
        trim_seq(s) == s,
{
    lemma_trim_start_id(s);
    lemma_trim_end_id(s);
}

/// An emitted scalar has no white space at either end and is not empty.
pub proof fn lemma_scalar_trimmed(v: Seq<char>)
    ensures
        scalar_spec(v).len() > 0,
        !is_ws(scalar_spec(v)[0]),
        !is_ws(scalar_spec(v).last()),
        trim_seq(scalar_spec(v)) == scalar_spec(v),
        trim_seq(seq![' '] + scalar_spec(v)) == scalar_spec(v),
{
    let s = scalar_spec(v);
    if needs_quotes_spec(v) {
        let inner = replace_seq(v, seq!['\''], seq!['\'', '\'']);
        assert(s == seq!['\''] + inner + seq!['\'']);
        assert(s[0] == '\'');
        assert(s.last() == '\'');
    }
    lemma_trim_id(s);
    let t = seq![' '] + s;
    assert(t.drop_first() =~= s);
    assert(trim_start_seq(t) == trim_start_seq(s));
}

/// Reading a scalar back undoes its quoting.
pub proof fn lemma_unquote_scalar(v: Seq<char>)
    ensures
        crate::store::read::unquote_spec(scalar_spec(v)) == v,
{
    lemma_scalar_trimmed(v);
    let s = scalar_spec(v);
    if needs_quotes_spec(v) {
        let inner = replace_seq(v, seq!['\''], seq!['\'', '\'']);
        assert(s == seq!['\''] + inner + seq!['\'']);
        assert(s.subrange(1, s.len() - 1) =~= inner);
        lemma_quote_doubling(v);
    } else {
        assert(!indicator(v[0]));
    }
}

// ---------------------------------------------------------------------------
// the frontmatter as lines
// ---------------------------------------------------------------------------

/// `key: <scalar>`.
pub open spec fn field_text(key: Seq<char>, v: Seq<char>) -> Seq<char> {
    key + seq![':', ' '] + scalar_spec(v)
}

pub open spec fn opt_lines(key: Seq<char>, o: Option<Seq<char>>) -> Seq<Seq<char>> {
    match o {
        Some(v) => seq![field_text(key, v)],
        None => seq![],
    }
}

/// `- <scalar>`.
pub open spec fn item_text(x: Seq<char>) -> Seq<char> {
    seq!['-', ' '] + scalar_spec(x)
}

pub open spec fn item_lines(items: Seq<Seq<char>>) -> Seq<Seq<char>> {
    items.map_values(|x: Seq<char>| item_text(x))
}

pub open spec fn list_lines(key: Seq<char>, items: Seq<Seq<char>>) -> Seq<Seq<char>> {
    if items.len() == 0 {
        seq![]
    } else {
        seq![key + seq![':']] + item_lines(items)
    }
}

pub open spec fn priority_text(p: u8) -> Seq<char> {
    "priority: "@ + dec_spec(p as nat)
}

/// The known fields' lines, in the order they are written.
pub open spec fn known_lines(t: TaskView) -> Seq<Seq<char>> {
    seq![field_text("id"@, t.id), field_text("title"@, t.title), field_text("type"@, t.kind), priority_text(t.priority)]
        + opt_lines("created"@, t.created) + opt_lines("updated"@, t.updated) + opt_lines("parent"@, t.parent)
        + list_lines("depends_on"@, t.depends_on) + list_lines("labels"@, t.labels) + opt_lines("source"@, t.source)
        + opt_lines("needs"@, t.needs) + opt_lines("verify"@, t.verify)
}

/// Every frontmatter line, known fields first, unmodeled lines last.
pub open spec fn front_lines(t: TaskView) -> Seq<Seq<char>> {
    known_lines(t) + t.extra
}

proof fn lemma_verbatim_one(l: Seq<char>)
    ensures
        verbatim_spec(seq![l]) == l + seq!['\n'],
{
    let ls = seq![l];
    assert(ls.drop_last() =~= Seq::<Seq<char>>::empty());
    assert(verbatim_spec(ls.drop_last()) =~= Seq::<char>::empty());
    assert(verbatim_spec(ls) =~= l + seq!['\n']);
}

proof fn lemma_verbatim_empty()
    ensures
        verbatim_spec(Seq::<Seq<char>>::empty()) == Seq::<char>::empty(),
{
}

proof fn lemma_opt_verbatim(key: Seq<char>, o: Option<Seq<char>>)
    ensures
        opt_line(key, o) == verbatim_spec(opt_lines(key, o)),
{
    match o {
        Some(v) => {
            lemma_verbatim_one(field_text(key, v));
            assert(field_line(key, v) =~= field_text(key, v) + seq!['\n']);
        },
        None => {
            lemma_verbatim_empty();
        },
    }
}

proof fn lemma_items_verbatim(items: Seq<Seq<char>>)
    ensures
        items_spec(items) == verbatim_spec(item_lines(items)),
    decreases items.len(),
{
    if items.len() == 0 {
        assert(item_lines(items) =~= Seq::<Seq<char>>::empty());
    } else {
        lemma_items_verbatim(items.drop_last());
        assert(item_lines(items).drop_last() =~= item_lines(items.drop_last()));
        assert(item_lines(items).last() == item_text(items.last()));
        assert(items_spec(items) =~= verbatim_spec(item_lines(items)));
    }
}

proof fn lemma_list_verbatim(key: Seq<char>, items: Seq<Seq<char>>)
    ensures
        list_spec(key, items) == verbatim_spec(list_lines(key, items)),
{
    if items.len() == 0 {
        lemma_verbatim_empty();
    } else {
        lemma_items_verbatim(items);
        lemma_verbatim_one(key + seq![':']);
        lemma_verbatim_concat(seq![key + seq![':']], item_lines(items));
        assert(list_spec(key, items) =~= verbatim_spec(list_lines(key, items)));
    }
}

/// The written frontmatter is its lines, each ended by a line break.
pub proof fn lemma_front_verbatim(t: TaskView)
    ensures
        frontmatter_spec(t) == verbatim_spec(front_lines(t)),
{
    let a0 = seq![field_text("id"@, t.id), field_text("title"@, t.title), field_text("type"@, t.kind), priority_text(t.priority)];
    let o1 = opt_lines("created"@, t.created);
    let o2 = opt_lines("updated"@, t.updated);
    let o3 = opt_lines("parent"@, t.parent);
    let l1 = list_lines("depends_on"@, t.depends_on);
    let l2 = list_lines("labels"@, t.labels);
    let o4 = opt_lines("source"@, t.source);
    let o5 = opt_lines("needs"@, t.needs);
    let o6 = opt_lines("verify"@, t.verify);
    let p1 = a0 + o1;
    let p2 = p1 + o2;
    let p3 = p2 + o3;
    let p4 = p3 + l1;
    let p5 = p4 + l2;
    let p6 = p5 + o4;
    let p7 = p6 + o5;
    let p8 = p7 + o6;
    lemma_verbatim_concat(a0, o1);
    lemma_verbatim_concat(p1, o2);
    lemma_verbatim_concat(p2, o3);
    lemma_verbatim_concat(p3, l1);
    lemma_verbatim_concat(p4, l2);
    lemma_verbatim_concat(p5, o4);
    lemma_verbatim_concat(p6, o5);
    lemma_verbatim_concat(p7, o6);
    lemma_verbatim_concat(p8, t.extra);
    lemma_opt_verbatim("created"@, t.created);
    lemma_opt_verbatim("updated"@, t.updated);
    lemma_opt_verbatim("parent"@, t.parent);
    lemma_opt_verbatim("source"@, t.source);
    lemma_opt_verbatim("needs"@, t.needs);
    lemma_opt_verbatim("verify"@, t.verify);
    lemma_list_verbatim("depends_on"@, t.depends_on);
    lemma_list_verbatim("labels"@, t.labels);
    let b0 = seq![field_text("id"@, t.id), field_text("title"@, t.title), field_text("type"@, t.kind)];
    lemma_verbatim_concat(b0, seq![priority_text(t.priority)]);
    assert(b0 + seq![priority_text(t.priority)] =~= a0);
    let c0 = seq![field_text("id"@, t.id), field_text("title"@, t.title)];
    lemma_verbatim_concat(c0, seq![field_text("type"@, t.kind)]);
    assert(c0 + seq![field_text("type"@, t.kind)] =~= b0);
    lemma_verbatim_concat(seq![field_text("id"@, t.id)], seq![field_text("title"@, t.title)]);
    assert(seq![field_text("id"@, t.id)] + seq![field_text("title"@, t.title)] =~= c0);
    lemma_verbatim_one(field_text("id"@, t.id));
    lemma_verbatim_one(field_text("title"@, t.title));
    lemma_verbatim_one(field_text("type"@, t.kind));
    lemma_verbatim_one(priority_text(t.priority));
    assert(verbatim_spec(a0) =~= field_line("id"@, t.id) + field_line("title"@, t.title) + field_line("type"@, t.kind)
        + "priority: "@ + dec_spec(t.priority as nat) + seq!['\n']);
    assert(frontmatter_spec(t) =~= verbatim_spec(front_lines(t)));
}

// ---------------------------------------------------------------------------
// folding the parser over lines
// ---------------------------------------------------------------------------

/// The parser's state after `ls`, from `st`.
pub open spec fn fold_from(st: FrontState, ls: Seq<Seq<char>>) -> FrontState
    decreases ls.len(),
{
    if ls.len() == 0 {
        st
    } else {
        front_step(fold_from(st, ls.drop_last()), ls.last())
    }
}

proof fn lemma_fold_init(ls: Seq<Seq<char>>)
    ensures
        front_fold(ls) == fold_from(front_init(), ls),
    decreases ls.len(),
{
    if ls.len() > 0 {
        lemma_fold_init(ls.drop_last());
    }
}

proof fn lemma_fold_concat(st: FrontState, a: Seq<Seq<char>>, b: Seq<Seq<char>>)
    ensures
        fold_from(st, a + b) == fold_from(fold_from(st, a), b),
    decreases b.len(),
{
    if b.len() == 0 {
        assert(a + b =~= a);
    } else {
        lemma_fold_concat(st, a, b.drop_last());
        assert((a + b).drop_last() =~= a + b.drop_last());
        assert((a + b).last() == b.last());
    }
}

proof fn lemma_fold_one(st: FrontState, l: Seq<char>)
    ensures
        fold_from(st, seq![l]) == front_step(st, l),
{
    assert(seq![l].drop_last() =~= Seq::<Seq<char>>::empty());
    assert(fold_from(st, seq![l].drop_last()) == st);
    assert(seq![l].last() == l);
}

// ---------------------------------------------------------------------------
// one line at a time
// ---------------------------------------------------------------------------

pub open spec fn reset(st: FrontState) -> FrontState {
    FrontState { pending: Pending::Nothing, ..st }
}

/// A key the parser recognizes.
pub open spec fn known_key(k: Seq<char>) -> bool {
    ||| k == "id"@
    ||| k == "title"@
    ||| k == "type"@
    ||| k == "priority"@
    ||| k == "created"@
    ||| k == "updated"@
    ||| k == "parent"@
    ||| k == "source"@
    ||| k == "needs"@
    ||| k == "verify"@
    ||| k == "labels"@
    ||| k == "depends_on"@
}

/// A key written plainly: no `:`, no white space, not opening with `-`.
pub open spec fn plain_key(key: Seq<char>) -> bool {
    &&& key.len() > 0
    &&& key[0] != '-'
    &&& forall|j: int| 0 <= j < key.len() ==> key[j] != ':' && !is_ws(#[trigger] key[j])
}

proof fn lemma_key_line(st: FrontState, key: Seq<char>, rest: Seq<char>)
    requires
        plain_key(key),
    ensures
        front_step(st, key + seq![':'] + rest) == front_field(
            reset(st),
            key + seq![':'] + rest,
            key,
            trim_seq(rest),
        ),
{
    let raw = key + seq![':'] + rest;
    let k = key.len() as int;
    assert(raw[0] == key[0]);
    lemma_trim_start_id(raw);
    assert(!starts_with(raw, seq!['-', ' '])) by {
        if starts_with(raw, seq!['-', ' ']) {
            assert(raw.subrange(0, 2)[0] == raw[0]);
        }
    }
    assert(occurs_at(raw, seq![':'], k)) by {
        assert(raw.subrange(k, k + 1) =~= seq![':']);
    }
    assert forall|j: int| 0 <= j < k implies !occurs_at(raw, seq![':'], j) by {
        if occurs_at(raw, seq![':'], j) {
            assert(raw.subrange(j, j + 1)[0] == raw[j]);
            assert(raw[j] == key[j]);
        }
    }
    lemma_first_is(raw, seq![':'], k);
    assert(raw.take(k) =~= key);
    lemma_trim_id(key);
    assert(raw.skip(k + 1) =~= rest);
}

/// A `key: <scalar>` line hands the parser the scalar, which reads back as
/// the value.
proof fn lemma_field_line(st: FrontState, key: Seq<char>, v: Seq<char>)
    requires
        plain_key(key),
    ensures
        front_step(st, field_text(key, v)) == front_field(reset(st), field_text(key, v), key, scalar_spec(v)),
        unquote_spec(scalar_spec(v)) == v,
{
    assert(field_text(key, v) =~= key + seq![':'] + (seq![' '] + scalar_spec(v)));
    lemma_key_line(st, key, seq![' '] + scalar_spec(v));
    lemma_scalar_trimmed(v);
    lemma_unquote_scalar(v);
}

proof fn lemma_keys()
    ensures
        "id"@ == seq!['i', 'd'],
        "title"@ == seq!['t', 'i', 't', 'l', 'e'],
        "type"@ == seq!['t', 'y', 'p', 'e'],
        "priority"@ == seq!['p', 'r', 'i', 'o', 'r', 'i', 't', 'y'],
        "created"@ == seq!['c', 'r', 'e', 'a', 't', 'e', 'd'],
        "updated"@ == seq!['u', 'p', 'd', 'a', 't', 'e', 'd'],
        "parent"@ == seq!['p', 'a', 'r', 'e', 'n', 't'],
        "source"@ == seq!['s', 'o', 'u', 'r', 'c', 'e'],
        "needs"@ == seq!['n', 'e', 'e', 'd', 's'],
        "verify"@ == seq!['v', 'e', 'r', 'i', 'f', 'y'],
        "labels"@ == seq!['l', 'a', 'b', 'e', 'l', 's'],
        "depends_on"@ == seq!['d', 'e', 'p', 'e', 'n', 'd', 's', '_', 'o', 'n'],
        "priority: "@ == seq!['p', 'r', 'i', 'o', 'r', 'i', 't', 'y', ':', ' '],
{
    reveal_strlit("id");
    reveal_strlit("title");
    reveal_strlit("type");
    reveal_strlit("priority");
    reveal_strlit("created");
    reveal_strlit("updated");
    reveal_strlit("parent");
    reveal_strlit("source");
    reveal_strlit("needs");
    reveal_strlit("verify");
    reveal_strlit("labels");
    reveal_strlit("depends_on");
    reveal_strlit("priority: ");
}

proof fn lemma_plain_keys()
    ensures
        plain_key("id"@),
        plain_key("title"@),
        plain_key("type"@),
        plain_key("priority"@),
        plain_key("created"@),
        plain_key("updated"@),
        plain_key("parent"@),
        plain_key("source"@),
        plain_key("needs"@),
        plain_key("verify"@),
        plain_key("labels"@),
        plain_key("depends_on"@),
{
    lemma_keys();
}

proof fn lemma_digit_char(d: nat)
    requires
        d < 10,
    ensures
        digit_char_spec(d) as nat - '0' as nat == d,
        crate::text::is_digit(digit_char_spec(d)),
{
    if d == 0 {
    } else if d == 1 {
    } else if d == 2 {
    } else if d == 3 {
    } else if d == 4 {
    } else if d == 5 {
    } else if d == 6 {
    } else if d == 7 {
    } else if d == 8 {
    } else {
    }
}

proof fn lemma_dec_digits(n: nat)
    ensures
        dec_spec(n).len() > 0,
        forall|j: int| 0 <= j < dec_spec(n).len() ==> crate::text::is_digit(#[trigger] dec_spec(n)[j]),
        digits_value(dec_spec(n)) == n,
    decreases n,
{
    lemma_digit_char(n % 10);
    if n < 10 {
        assert(n % 10 == n);
        let s = dec_spec(n);
        assert(s == seq![digit_char_spec(n)]);
        assert(s.drop_last() =~= Seq::<char>::empty());
        assert(digits_value(s.drop_last()) == 0);
        assert(digits_value(s) == digits_value(s.drop_last()) * 10 + (s.last() as nat - '0' as nat) as nat);
    } else {
        lemma_dec_digits(n / 10);
        assert((n / 10) * 10 + n % 10 == n) by (nonlinear_arith);
        let s = dec_spec(n);
        assert(s.drop_last() =~= dec_spec(n / 10));
        assert(s.last() == digit_char_spec(n % 10));
        assert(forall|j: int| 0 <= j < s.len() - 1 ==> s[j] == dec_spec(n / 10)[j]);
        assert(digits_value(s) == digits_value(s.drop_last()) * 10 + (s.last() as nat - '0' as nat) as nat);
        assert(digits_value(s) == (n / 10) * 10 + n % 10);
    }
}

/// The priority line reads back as the priority.
proof fn lemma_priority_line(st: FrontState, p: u8)
    ensures
        front_step(st, priority_text(p)) == (FrontState { priority: p, pending: Pending::Nothing, ..st }),
{
    lemma_keys();
    lemma_plain_keys();
    let d = dec_spec(p as nat);
    lemma_dec_digits(p as nat);
    assert(priority_text(p) =~= "priority"@ + seq![':'] + (seq![' '] + d));
    lemma_key_line(st, "priority"@, seq![' '] + d);
    lemma_trim_id(d);
    let t = seq![' '] + d;
    assert(t.drop_first() =~= d);
    assert(trim_start_seq(t) == trim_start_seq(d));
    assert(trim_seq(t) == d);
    assert(u8_body(d) == d);
    assert(parse_u8_spec(d) == Some(p));
}

proof fn lemma_item_step(st: FrontState, x: Seq<char>)
    requires
        st.pending != Pending::Nothing,
    ensures
        front_step(st, item_text(x)) == (match st.pending {
            Pending::Labels => FrontState { labels: st.labels.push(x), ..st },
            Pending::Depends => FrontState { depends_on: st.depends_on.push(x), ..st },
            _ => FrontState { extra: st.extra.push(item_text(x)), ..st },
        }),
{
    let raw = item_text(x);
    lemma_trim_start_id(raw);
    assert(starts_with(raw, seq!['-', ' '])) by {
        assert(raw.subrange(0, 2) =~= seq!['-', ' ']);
    }
    assert(raw.skip(2) =~= scalar_spec(x));
    lemma_scalar_trimmed(x);
    lemma_unquote_scalar(x);
}

/// The effect of a block list's items.
pub open spec fn with_items(st: FrontState, items: Seq<Seq<char>>) -> FrontState {
    if st.pending == Pending::Labels {
        FrontState { labels: st.labels + items, ..st }
    } else {
        FrontState { depends_on: st.depends_on + items, ..st }
    }
}

proof fn lemma_items_fold(st: FrontState, items: Seq<Seq<char>>)
    requires
        st.pending == Pending::Labels || st.pending == Pending::Depends,
    ensures
        fold_from(st, item_lines(items)) == with_items(st, items),
    decreases items.len(),
{
    if items.len() == 0 {
        assert(item_lines(items) =~= Seq::<Seq<char>>::empty());
        assert(st.labels + items =~= st.labels);
        assert(st.depends_on + items =~= st.depends_on);
    } else {
        lemma_items_fold(st, items.drop_last());
        assert(item_lines(items).drop_last() =~= item_lines(items.drop_last()));
        assert(item_lines(items).last() == item_text(items.last()));
        let mid = with_items(st, items.drop_last());
        lemma_item_step(mid, items.last());
        assert(st.labels + items.drop_last() + seq![items.last()] =~= st.labels + items);
        assert((st.labels + items.drop_last()).push(items.last()) =~= st.labels + items);
        assert((st.depends_on + items.drop_last()).push(items.last()) =~= st.depends_on + items);
    }
}

/// The effect of a known scalar field's line.
pub open spec fn with_opt(st: FrontState, key: Seq<char>, v: Seq<char>) -> FrontState {
    if key == "created"@ {
        FrontState { created: Some(v), ..st }
    } else if key == "updated"@ {
        FrontState { updated: Some(v), ..st }
    } else if key == "parent"@ {
        FrontState { parent: Some(v), ..st }
    } else if key == "source"@ {
        FrontState { source: Some(v), ..st }
    } else if key == "needs"@ {
        FrontState { needs: Some(v), ..st }
    } else {
        FrontState { verify: Some(v), ..st }
    }
}

pub open spec fn opt_key(key: Seq<char>) -> bool {
    ||| key == "created"@
    ||| key == "updated"@
    ||| key == "parent"@
    ||| key == "source"@
    ||| key == "needs"@
    ||| key == "verify"@
}

proof fn lemma_opt_fold(st: FrontState, key: Seq<char>, o: Option<Seq<char>>)
    requires
        opt_key(key),
        o matches Some(v) ==> v.len() > 0,
    ensures
        fold_from(st, opt_lines(key, o)) == (match o {
            None => st,
            Some(v) => with_opt(reset(st), key, v),
        }),
{
    lemma_keys();
    lemma_plain_keys();
    match o {
        None => {
            assert(opt_lines(key, o) =~= Seq::<Seq<char>>::empty());
        },
        Some(v) => {
            lemma_fold_one(st, field_text(key, v));
            lemma_field_line(st, key, v);
        },
    }
}

/// The effect of a block list: its header line, then its items.
pub open spec fn with_list(st: FrontState, key: Seq<char>, items: Seq<Seq<char>>) -> FrontState {
    if items.len() == 0 {
        st
    } else if key == "labels"@ {
        FrontState { labels: st.labels + items, pending: Pending::Labels, ..st }
    } else {
        FrontState { depends_on: st.depends_on + items, pending: Pending::Depends, ..st }
    }
}

proof fn lemma_list_fold(st: FrontState, key: Seq<char>, items: Seq<Seq<char>>)
    requires
        key == "labels"@ || key == "depends_on"@,
    ensures
        fold_from(st, list_lines(key, items)) == with_list(st, key, items),
{
    lemma_keys();
    lemma_plain_keys();
    if items.len() == 0 {
        assert(list_lines(key, items) =~= Seq::<Seq<char>>::empty());
    } else {
        let head = key + seq![':'];
        lemma_fold_concat(st, seq![head], item_lines(items));
        lemma_fold_one(st, head);
        assert(head =~= key + seq![':'] + Seq::<char>::empty());
        lemma_key_line(st, key, Seq::<char>::empty());
        assert(trim_seq(Seq::<char>::empty()) =~= Seq::<char>::empty());
        assert(inline_list_spec(Seq::<char>::empty()) is None);
        let mid = fold_from(st, seq![head]);
        lemma_items_fold(mid, items);
    }
}

// ---------------------------------------------------------------------------
// lines the parser does not model
// ---------------------------------------------------------------------------

/// A `- item` line.
pub open spec fn item_line(l: Seq<char>) -> bool {
    starts_with(trim_start_seq(l), seq!['-', ' '])
}

/// A `key: value` line whose key the parser does not model.
pub open spec fn unknown_key_line(l: Seq<char>) -> bool {
    &&& !item_line(l)
    &&& first_from(l, seq![':'], 0) matches Some(c) && !known_key(trim_seq(l.take(c)))
}

/// An unknown key with nothing after its `:`: a block of `- item` lines may
/// follow.
pub open spec fn opens_list(l: Seq<char>) -> bool {
    &&& unknown_key_line(l)
    &&& first_from(l, seq![':'], 0) matches Some(c) && trim_seq(l.skip(c + 1)).len() == 0
}

/// Unmodeled lines as the parser keeps them: each an unknown `key: value`
/// line, or an item line under an unknown key that opened a block.
pub open spec fn extras_ok(ex: Seq<Seq<char>>) -> bool {
    forall|i: int|
        0 <= i < ex.len() ==> unknown_key_line(#[trigger] ex[i]) || (item_line(ex[i]) && i > 0 && (
        opens_list(ex[i - 1]) || item_line(ex[i - 1])))
}

pub open spec fn extras_pending(st: FrontState, ex: Seq<Seq<char>>) -> Pending {
    if ex.len() == 0 {
        st.pending
    } else if opens_list(ex.last()) || item_line(ex.last()) {
        Pending::Extra
    } else {
        Pending::Nothing
    }
}

proof fn lemma_extras_fold(st: FrontState, ex: Seq<Seq<char>>)
    requires
        extras_ok(ex),
    ensures
        fold_from(st, ex) == (FrontState { extra: st.extra + ex, pending: extras_pending(st, ex), ..st }),
    decreases ex.len(),
{
    if ex.len() == 0 {
        assert(st.extra + ex =~= st.extra);
    } else {
        let a = ex.drop_last();
        assert forall|i: int| 0 <= i < a.len() implies unknown_key_line(#[trigger] a[i]) || (item_line(a[i]) && i
            > 0 && (opens_list(a[i - 1]) || item_line(a[i - 1]))) by {
            assert(a[i] == ex[i]);
            if i > 0 {
                assert(a[i - 1] == ex[i - 1]);
            }
        }
        lemma_extras_fold(st, a);
        let mid = fold_from(st, a);
        let l = ex.last();
        let k = ex.len() - 1;
        assert(l == ex[k]);
        assert((st.extra + a).push(l) =~= st.extra + ex);
        if unknown_key_line(l) {
            let c = first_from(l, seq![':'], 0)->0;
            lemma_first_from(l, seq![':'], 0);
            assert(l =~= l.take(c) + seq![':'] + l.skip(c + 1)) by {
                assert(l.subrange(c, c + 1)[0] == l[c]);
            }
        } else {
            assert(item_line(l));
            assert(a.last() == ex[k - 1]);
            assert(mid.pending == Pending::Extra);
        }
    }
}

// ---------------------------------------------------------------------------
// the whole frontmatter
// ---------------------------------------------------------------------------

/// A scalar that stays on its line.
pub open spec fn one_line(v: Seq<char>) -> bool {
    forall|j: int| 0 <= j < v.len() ==> v[j] != '\n'
}

pub open spec fn opt_ok(o: Option<Seq<char>>) -> bool {
    match o {
        Some(v) => v.len() > 0 && one_line(v),
        None => true,
    }
}

/// A line that could close the frontmatter early.
pub open spec fn fence_line(l: Seq<char>) -> bool {
    starts_with(l, seq!['-', '-', '-'])
}

/// A task the file format can hold exactly: an id, single-line scalars,
/// optional fields that are absent rather than empty, unmodeled lines as
/// the parser keeps them (none empty, none a fence), and a trimmed body.
pub open spec fn storable(t: TaskView) -> bool {
    &&& t.id.len() > 0
    &&& one_line(t.id)
    &&& one_line(t.title)
    &&& one_line(t.kind)
    &&& opt_ok(t.created)
    &&& opt_ok(t.updated)
    &&& opt_ok(t.parent)
    &&& opt_ok(t.source)
    &&& opt_ok(t.needs)
    &&& opt_ok(t.verify)
    &&& forall|i: int| 0 <= i < t.labels.len() ==> one_line(#[trigger] t.labels[i])
    &&& forall|i: int| 0 <= i < t.depends_on.len() ==> one_line(#[trigger] t.depends_on[i])
    &&& extras_ok(t.extra)
    &&& forall|i: int|
        0 <= i < t.extra.len() ==> clean_line(#[trigger] t.extra[i]) && t.extra[i].len() > 0 && !fence_line(
            t.extra[i],
        )
    &&& t.body == trim_seq(t.body)
}

pub open spec fn head_lines(t: TaskView) -> Seq<Seq<char>> {
    seq![field_text("id"@, t.id), field_text("title"@, t.title), field_text("type"@, t.kind), priority_text(t.priority)]
}

proof fn lemma_head_fold(t: TaskView)
    ensures
        ({
            let st = fold_from(front_init(), head_lines(t));
            &&& st == (FrontState { id: t.id, title: t.title, kind: t.kind, priority: t.priority, ..front_init() })
        }),
{
    lemma_keys();
    lemma_plain_keys();
    let l_id = field_text("id"@, t.id);
    let l_title = field_text("title"@, t.title);
    let l_type = field_text("type"@, t.kind);
    let l_prio = priority_text(t.priority);
    let a0 = head_lines(t);
    let s0 = front_init();
    lemma_field_line(s0, "id"@, t.id);
    let s1 = front_step(s0, l_id);
    lemma_field_line(s1, "title"@, t.title);
    let s2 = front_step(s1, l_title);
    lemma_field_line(s2, "type"@, t.kind);
    let s3 = front_step(s2, l_type);
    lemma_priority_line(s3, t.priority);
    let s4 = front_step(s3, l_prio);
    reveal_with_fuel(fold_from, 5);
    assert(a0.drop_last() =~= seq![l_id, l_title, l_type]);
    assert(a0.drop_last().drop_last() =~= seq![l_id, l_title]);
    assert(a0.drop_last().drop_last().drop_last() =~= seq![l_id]);
    assert(a0.drop_last().drop_last().drop_last().drop_last() =~= Seq::<Seq<char>>::empty());
}

/// The fields a stretch of lines leaves alone, and the ones it sets.
pub open spec fn same_but_dates(a: FrontState, b: FrontState) -> bool {
    &&& a.id == b.id && a.title == b.title && a.kind == b.kind && a.priority == b.priority
    &&& a.source == b.source && a.needs == b.needs && a.verify == b.verify
    &&& a.labels == b.labels && a.depends_on == b.depends_on && a.extra == b.extra
}

pub open spec fn date_lines(t: TaskView) -> Seq<Seq<char>> {
    opt_lines("created"@, t.created) + opt_lines("updated"@, t.updated) + opt_lines("parent"@, t.parent)
}

proof fn lemma_dates_fold(st: FrontState, t: TaskView)
    requires
        opt_ok(t.created),
        opt_ok(t.updated),
        opt_ok(t.parent),
        st.created is None,
        st.updated is None,
        st.parent is None,
    ensures
        ({
            let r = fold_from(st, date_lines(t));
            &&& same_but_dates(r, st)
            &&& r.created == t.created && r.updated == t.updated && r.parent == t.parent
        }),
{
    lemma_keys();
    let o1 = opt_lines("created"@, t.created);
    let o2 = opt_lines("updated"@, t.updated);
    let o3 = opt_lines("parent"@, t.parent);
    lemma_fold_concat(st, o1, o2);
    lemma_fold_concat(st, o1 + o2, o3);
    lemma_opt_fold(st, "created"@, t.created);
    let s1 = fold_from(st, o1);
    lemma_opt_fold(s1, "updated"@, t.updated);
    let s2 = fold_from(s1, o2);
    lemma_opt_fold(s2, "parent"@, t.parent);
}

pub open spec fn list_part(t: TaskView) -> Seq<Seq<char>> {
    list_lines("depends_on"@, t.depends_on) + list_lines("labels"@, t.labels)
}

proof fn lemma_lists_fold(st: FrontState, t: TaskView)
    requires
        st.labels == Seq::<Seq<char>>::empty(),
        st.depends_on == Seq::<Seq<char>>::empty(),
    ensures
        ({
            let r = fold_from(st, list_part(t));
            &&& r.id == st.id && r.title == st.title && r.kind == st.kind && r.priority == st.priority
            &&& r.created == st.created && r.updated == st.updated && r.parent == st.parent
            &&& r.source == st.source && r.needs == st.needs && r.verify == st.verify && r.extra == st.extra
            &&& r.labels == t.labels && r.depends_on == t.depends_on
        }),
{
    lemma_keys();
    let l1 = list_lines("depends_on"@, t.depends_on);
    let l2 = list_lines("labels"@, t.labels);
    lemma_fold_concat(st, l1, l2);
    lemma_list_fold(st, "depends_on"@, t.depends_on);
    let s1 = fold_from(st, l1);
    assert(st.depends_on + t.depends_on =~= t.depends_on);
    lemma_list_fold(s1, "labels"@, t.labels);
    assert(s1.labels + t.labels =~= t.labels);
}

pub open spec fn late_lines(t: TaskView) -> Seq<Seq<char>> {
    opt_lines("source"@, t.source) + opt_lines("needs"@, t.needs) + opt_lines("verify"@, t.verify)
}

proof fn lemma_late_fold(st: FrontState, t: TaskView)
    requires
        opt_ok(t.source),
        opt_ok(t.needs),
        opt_ok(t.verify),
        st.source is None,
        st.needs is None,
        st.verify is None,
    ensures
        ({
            let r = fold_from(st, late_lines(t));
            &&& r.id == st.id && r.title == st.title && r.kind == st.kind && r.priority == st.priority
            &&& r.created == st.created && r.updated == st.updated && r.parent == st.parent
            &&& r.labels == st.labels && r.depends_on == st.depends_on && r.extra == st.extra
            &&& r.source == t.source && r.needs == t.needs && r.verify == t.verify
        }),
{
    lemma_keys();
    let o1 = opt_lines("source"@, t.source);
    let o2 = opt_lines("needs"@, t.needs);
    let o3 = opt_lines("verify"@, t.verify);
    lemma_fold_concat(st, o1, o2);
    lemma_fold_concat(st, o1 + o2, o3);
    lemma_opt_fold(st, "source"@, t.source);
    let s1 = fold_from(st, o1);
    lemma_opt_fold(s1, "needs"@, t.needs);
    let s2 = fold_from(s1, o2);
    lemma_opt_fold(s2, "verify"@, t.verify);
}

/// The parser's state after every frontmatter line holds the task's fields.
#[verifier::rlimit(40)]
#[verifier::spinoff_prover]
proof fn lemma_front_fold(t: TaskView)
    requires
        storable(t),
    ensures
        ({
            let st = front_fold(front_lines(t));
            &&& st.id == t.id && st.title == t.title && st.kind == t.kind && st.priority == t.priority
            &&& st.created == t.created && st.updated == t.updated && st.parent == t.parent
            &&& st.source == t.source && st.needs == t.needs && st.verify == t.verify
            &&& st.labels == t.labels && st.depends_on == t.depends_on && st.extra == t.extra
        }),
{
    let h = head_lines(t);
    let d = date_lines(t);
    let l = list_part(t);
    let z = late_lines(t);
    assert(known_lines(t) =~= h + d + l + z);
    let s0 = front_init();
    lemma_head_fold(t);
    let s1 = fold_from(s0, h);
    lemma_dates_fold(s1, t);
    let s2 = fold_from(s1, d);
    lemma_lists_fold(s2, t);
    let s3 = fold_from(s2, l);
    lemma_late_fold(s3, t);
    let s4 = fold_from(s3, z);
    lemma_fold_concat(s0, h, d);
    lemma_fold_concat(s0, h + d, l);
    lemma_fold_concat(s0, h + d + l, z);
    lemma_extras_fold(s4, t.extra);
    lemma_fold_concat(s0, known_lines(t), t.extra);
    lemma_fold_init(front_lines(t));
    assert(s4.extra + t.extra =~= t.extra);
}

// ---------------------------------------------------------------------------
// the file's frame
// ---------------------------------------------------------------------------

pub proof fn lemma_replace_keeps_out(s: Seq<char>, pat: Seq<char>, rep: Seq<char>, c: char)
    requires
        pat.len() > 0,
        forall|j: int| 0 <= j < s.len() ==> s[j] != c,
        forall|j: int| 0 <= j < rep.len() ==> rep[j] != c,
    ensures
        forall|j: int| 0 <= j < replace_seq(s, pat, rep).len() ==> replace_seq(s, pat, rep)[j] != c,
    decreases s.len(),
{
    lemma_first_from(s, pat, 0);
    match first_from(s, pat, 0) {
        None => {},
        Some(i) => {
            lemma_replace_step(s, pat, rep, i);
            let rest = s.skip(i + pat.len());
            lemma_replace_keeps_out(rest, pat, rep, c);
            let r = replace_seq(s, pat, rep);
            let tail = replace_seq(rest, pat, rep);
            assert forall|j: int| 0 <= j < r.len() implies r[j] != c by {
                if j < i {
                    assert(r[j] == s[j]);
                } else if j < i + rep.len() {
                    assert(r[j] == rep[j - i]);
                } else {
                    assert(r[j] == tail[j - i - rep.len()]);
                }
            }
        },
    }
}

proof fn lemma_scalar_one_line(v: Seq<char>)
    requires
        one_line(v),
    ensures
        one_line(scalar_spec(v)),
{
    if needs_quotes_spec(v) {
        lemma_replace_keeps_out(v, seq!['\''], seq!['\'', '\''], '\n');
        let inner = replace_seq(v, seq!['\''], seq!['\'', '\'']);
        let s = scalar_spec(v);
        assert(s == seq!['\''] + inner + seq!['\'']);
        assert forall|j: int| 0 <= j < s.len() implies s[j] != '\n' by {
            if 0 < j < s.len() - 1 {
                assert(s[j] == inner[j - 1]);
            }
        }
    }
}

/// A frontmatter line that is clean, not empty, and not a fence.
pub open spec fn frame_line(l: Seq<char>) -> bool {
    clean_line(l) && l.len() > 0 && !fence_line(l)
}

proof fn lemma_prefixed_frame(head: Seq<char>, v: Seq<char>)
    requires
        head.len() > 0,
        head[0] != '-' || (head.len() > 1 && head[1] != '-'),
        one_line(head),
        one_line(v),
    ensures
        frame_line(head + scalar_spec(v)),
{
    lemma_scalar_one_line(v);
    lemma_scalar_trimmed(v);
    let l = head + scalar_spec(v);
    assert(l.last() == scalar_spec(v).last());
    assert forall|j: int| 0 <= j < l.len() implies l[j] != '\n' by {
        if j < head.len() {
            assert(l[j] == head[j]);
        } else {
            assert(l[j] == scalar_spec(v)[j - head.len()]);
        }
    }
    if fence_line(l) {
        assert(l.subrange(0, 3)[0] == l[0]);
        assert(l.subrange(0, 3)[1] == l[1]);
    }
}

proof fn lemma_key_frame(key: Seq<char>, v: Seq<char>)
    requires
        plain_key(key),
        forall|j: int| 0 <= j < key.len() ==> key[j] != '\n',
        one_line(v),
    ensures
        frame_line(field_text(key, v)),
{
    let head = key + seq![':', ' '];
    assert(field_text(key, v) =~= head + scalar_spec(v));
    assert(head[0] == key[0]);
    assert forall|j: int| 0 <= j < head.len() implies head[j] != '\n' by {
        if j < key.len() {
            assert(head[j] == key[j]);
        }
    }
    lemma_prefixed_frame(head, v);
}

proof fn lemma_frame_lines(t: TaskView)
    requires
        storable(t),
    ensures
        forall|i: int| 0 <= i < front_lines(t).len() ==> frame_line(#[trigger] front_lines(t)[i]),
{
    lemma_keys();
    lemma_plain_keys();
    let ls = front_lines(t);
    let h = head_lines(t);
    let d = date_lines(t);
    let l = list_part(t);
    let z = late_lines(t);
    assert(ls =~= h + d + l + z + t.extra);
    lemma_key_frame("id"@, t.id);
    lemma_key_frame("title"@, t.title);
    lemma_key_frame("type"@, t.kind);
    let pt = priority_text(t.priority);
    lemma_dec_digits(t.priority as nat);
    assert(frame_line(pt)) by {
        let dd = dec_spec(t.priority as nat);
        assert(pt.last() == dd.last());
        assert forall|j: int| 0 <= j < pt.len() implies pt[j] != '\n' by {
            if j >= 10 {
                assert(pt[j] == dd[j - 10]);
            }
        }
        if fence_line(pt) {
            assert(pt.subrange(0, 3)[0] == pt[0]);
        }
    }
    assert forall|i: int| 0 <= i < h.len() implies frame_line(#[trigger] h[i]) by {}
    assert forall|i: int| 0 <= i < d.len() implies frame_line(#[trigger] d[i]) by {
        lemma_opt_frame("created"@, t.created);
        lemma_opt_frame("updated"@, t.updated);
        lemma_opt_frame("parent"@, t.parent);
        let o1 = opt_lines("created"@, t.created);
        let o2 = opt_lines("updated"@, t.updated);
        if i < o1.len() {
            assert(d[i] == o1[i]);
        } else if i < o1.len() + o2.len() {
            assert(d[i] == o2[i - o1.len()]);
        } else {
            assert(d[i] == opt_lines("parent"@, t.parent)[i - o1.len() - o2.len()]);
        }
    }
    assert forall|i: int| 0 <= i < z.len() implies frame_line(#[trigger] z[i]) by {
        lemma_opt_frame("source"@, t.source);
        lemma_opt_frame("needs"@, t.needs);
        lemma_opt_frame("verify"@, t.verify);
        let o1 = opt_lines("source"@, t.source);
        let o2 = opt_lines("needs"@, t.needs);
        if i < o1.len() {
            assert(z[i] == o1[i]);
        } else if i < o1.len() + o2.len() {
            assert(z[i] == o2[i - o1.len()]);
        } else {
            assert(z[i] == opt_lines("verify"@, t.verify)[i - o1.len() - o2.len()]);
        }
    }
    assert forall|i: int| 0 <= i < l.len() implies frame_line(#[trigger] l[i]) by {
        lemma_list_frame("depends_on"@, t.depends_on);
        lemma_list_frame("labels"@, t.labels);
        let l1 = list_lines("depends_on"@, t.depends_on);
        if i < l1.len() {
            assert(l[i] == l1[i]);
        } else {
            assert(l[i] == list_lines("labels"@, t.labels)[i - l1.len()]);
        }
    }
    assert forall|i: int| 0 <= i < ls.len() implies frame_line(#[trigger] ls[i]) by {
        let n1 = h.len();
        let n2 = n1 + d.len();
        let n3 = n2 + l.len();
        let n4 = n3 + z.len();
        if i < n1 {
            assert(ls[i] == h[i]);
        } else if i < n2 {
            assert(ls[i] == d[i - n1]);
        } else if i < n3 {
            assert(ls[i] == l[i - n2]);
        } else if i < n4 {
            assert(ls[i] == z[i - n3]);
        } else {
            assert(ls[i] == t.extra[i - n4]);
        }
    }
}

proof fn lemma_opt_frame(key: Seq<char>, o: Option<Seq<char>>)
    requires
        plain_key(key),
        forall|j: int| 0 <= j < key.len() ==> key[j] != '\n',
        opt_ok(o),
    ensures
        forall|i: int| 0 <= i < opt_lines(key, o).len() ==> frame_line(#[trigger] opt_lines(key, o)[i]),
{
    match o {
        Some(v) => {
            lemma_key_frame(key, v);
        },
        None => {},
    }
}

proof fn lemma_list_frame(key: Seq<char>, items: Seq<Seq<char>>)
    requires
        plain_key(key),
        forall|j: int| 0 <= j < key.len() ==> key[j] != '\n',
        forall|i: int| 0 <= i < items.len() ==> one_line(#[trigger] items[i]),
    ensures
        forall|i: int| 0 <= i < list_lines(key, items).len() ==> frame_line(#[trigger] list_lines(key, items)[i]),
{
    if items.len() > 0 {
        let ls = list_lines(key, items);
        let head = key + seq![':'];
        assert forall|i: int| 0 <= i < ls.len() implies frame_line(#[trigger] ls[i]) by {
            if i == 0 {
                assert(ls[0] == head);
                assert(head.last() == ':');
                assert forall|j: int| 0 <= j < head.len() implies head[j] != '\n' by {
                    if j < key.len() {
                        assert(head[j] == key[j]);
                    }
                }
                if fence_line(head) {
                    assert(head.subrange(0, 3)[0] == head[0]);
                    assert(head[0] == key[0]);
                }
            } else {
                assert(ls[i] == item_text(items[i - 1]));
                assert(one_line(items[i - 1]));
                assert(seq!['-', ' '][1] != '-');
                lemma_prefixed_frame(seq!['-', ' '], items[i - 1]);
            }
        }
    }
}

pub open spec fn fence_mark() -> Seq<char> {
    seq!['\n', '-', '-', '-']
}

/// No `\n---` starts before the last line break of the written lines,
/// whatever follows them.
proof fn lemma_no_early_fence(ls: Seq<Seq<char>>, tail: Seq<char>)
    requires
        forall|i: int| 0 <= i < ls.len() ==> frame_line(#[trigger] ls[i]),
    ensures
        forall|j: int|
            0 <= j < verbatim_spec(ls).len() - 1 ==> !occurs_at(verbatim_spec(ls) + tail, fence_mark(), j),
    decreases ls.len(),
{
    if ls.len() > 0 {
        lemma_verbatim_front(ls);
        let l0 = ls[0];
        assert(frame_line(l0));
        let r = ls.drop_first();
        assert forall|i: int| 0 <= i < r.len() implies frame_line(#[trigger] r[i]) by {
            assert(r[i] == ls[i + 1]);
        }
        lemma_no_early_fence(r, tail);
        let f = verbatim_spec(ls);
        let rv = verbatim_spec(r);
        let x = f + tail;
        let y = rv + tail;
        let n0 = l0.len() as int;
        assert(x =~= l0 + seq!['\n'] + y);
        assert forall|j: int| 0 <= j < f.len() - 1 implies !occurs_at(x, fence_mark(), j) by {
            if occurs_at(x, fence_mark(), j) {
                let w = x.subrange(j, j + 4);
                assert(w =~= fence_mark());
                assert(w[0] == x[j]);
                if j < n0 {
                    assert(x[j] == l0[j]);
                } else if j == n0 {
                    assert(rv.len() > 0);
                    assert(r.len() > 0);
                    lemma_verbatim_front(r);
                    let l1 = r[0];
                    assert(frame_line(l1));
                    assert(w[1] == y[0] && w[2] == y[1] && w[3] == y[2]);
                    if l1.len() >= 3 {
                        assert(y[0] == l1[0] && y[1] == l1[1] && y[2] == l1[2]);
                        assert(l1.subrange(0, 3) =~= seq!['-', '-', '-']);
                    } else {
                        let k = l1.len() as int;
                        assert(y[k] == '\n');
                        assert(w[k + 1] == y[k]);
                    }
                } else {
                    let j2 = j - n0 - 1;
                    assert(y.subrange(j2, j2 + 4) =~= w);
                    assert(occurs_at(y, fence_mark(), j2));
                }
            }
        }
    }
}

proof fn lemma_verbatim_ends(ls: Seq<Seq<char>>)
    requires
        ls.len() > 0,
    ensures
        verbatim_spec(ls).len() > 0,
        verbatim_spec(ls).last() == '\n',
        verbatim_spec(ls).drop_last() == verbatim_spec(ls.drop_last()) + ls.last(),
{
    assert(verbatim_spec(ls) == verbatim_spec(ls.drop_last()) + ls.last() + seq!['\n']);
    assert(verbatim_spec(ls).drop_last() =~= verbatim_spec(ls.drop_last()) + ls.last());
}

/// The written lines without the final line break split back into the
/// lines, the last one being non-empty.
proof fn lemma_split_verbatim_open(ls: Seq<Seq<char>>)
    requires
        ls.len() > 0,
        forall|i: int| 0 <= i < ls.len() ==> frame_line(#[trigger] ls[i]),
    ensures
        lines_seq(verbatim_spec(ls).drop_last()) == ls,
    decreases ls.len(),
{
    lemma_split_open(ls);
    let p = ls;
    assert(p.last().len() > 0) by {
        assert(frame_line(ls[ls.len() - 1]));
    }
    assert forall|i: int| 0 <= i < ls.len() implies strip_cr(#[trigger] ls[i]) == ls[i] by {
        assert(frame_line(ls[i]));
    }
    assert(ls.map_values(|l: Seq<char>| strip_cr(l)) =~= ls);
}

proof fn lemma_split_open(ls: Seq<Seq<char>>)
    requires
        ls.len() > 0,
        forall|i: int| 0 <= i < ls.len() ==> frame_line(#[trigger] ls[i]),
    ensures
        split_seq(verbatim_spec(ls).drop_last(), '\n') == ls,
    decreases ls.len(),
{
    lemma_verbatim_front(ls);
    let l0 = ls[0];
    assert(frame_line(l0));
    let f = verbatim_spec(ls);
    if ls.len() == 1 {
        assert(ls.drop_first() =~= Seq::<Seq<char>>::empty());
        assert(verbatim_spec(ls.drop_first()) =~= Seq::<char>::empty());
        assert(f.drop_last() =~= l0);
        lemma_split_none(l0, '\n');
        assert(seq![l0] =~= ls);
    } else {
        let r = ls.drop_first();
        assert forall|i: int| 0 <= i < r.len() implies frame_line(#[trigger] r[i]) by {
            assert(r[i] == ls[i + 1]);
        }
        lemma_verbatim_ends(r);
        let g = f.drop_last();
        let rv = verbatim_spec(r);
        assert(g =~= l0 + seq!['\n'] + rv.drop_last());
        let i = l0.len() as int;
        assert(g[i] == '\n');
        assert forall|j: int| 0 <= j < i implies g[j] != '\n' by {
            assert(g[j] == l0[j]);
        }
        lemma_split_step(g, '\n', i);
        assert(g.take(i) =~= l0);
        assert(g.skip(i + 1) =~= rv.drop_last());
        lemma_split_open(r);
        assert(seq![l0] + r =~= ls);
    }
}

proof fn lemma_trim_start_first(s: Seq<char>)
    ensures
        trim_start_seq(s).len() > 0 ==> !is_ws(trim_start_seq(s)[0]),
        trim_start_seq(s).len() <= s.len(),
    decreases s.len(),
{
    if s.len() > 0 && is_ws(s[0]) {
        lemma_trim_start_first(s.drop_first());
    }
}

pub proof fn lemma_trim_end_last(s: Seq<char>)
    ensures
        trim_end_seq(s).len() > 0 ==> !is_ws(trim_end_seq(s).last()),
        trim_end_seq(s) == s.take(trim_end_seq(s).len() as int),
        trim_end_seq(s).len() <= s.len(),
    decreases s.len(),
{
    if s.len() > 0 && is_ws(s.last()) {
        lemma_trim_end_last(s.drop_last());
        let t = trim_end_seq(s.drop_last());
        assert(s.drop_last().take(t.len() as int) =~= s.take(t.len() as int));
    } else {
        assert(s.take(s.len() as int) =~= s);
    }
}

/// A trimmed text has no white space at either end.
pub proof fn lemma_trimmed_ends(s: Seq<char>)
    ensures
        trim_seq(s).len() > 0 ==> !is_ws(trim_seq(s)[0]) && !is_ws(trim_seq(s).last()),
{
    let a = trim_start_seq(s);
    lemma_trim_start_first(s);
    lemma_trim_end_last(a);
    let b = trim_end_seq(a);
    if b.len() > 0 {
        assert(b[0] == a[0]);
    }
}

proof fn lemma_trim_newlines_id(s: Seq<char>)
    requires
        s.len() > 0 ==> s[0] != '\r' && s[0] != '\n',
    ensures
        crate::store::read::trim_newlines_start(s) == s,
{
}

/// The body as the file holds it reads back as the (trimmed) body.
proof fn lemma_body_back(b: Seq<char>)
    requires
        b == trim_seq(b),
    ensures
        trim_seq(crate::store::read::trim_newlines_start(seq!['\n'] + if b.len() > 0 {
            seq!['\n'] + b + seq!['\n']
        } else {
            seq![]
        })) == b,
{
    lemma_trimmed_ends(b);
    let part = if b.len() > 0 {
        seq!['\n'] + b + seq!['\n']
    } else {
        seq![]
    };
    let x = seq!['\n'] + part;
    assert(x.drop_first() =~= part);
    assert(crate::store::read::trim_newlines_start(x) == crate::store::read::trim_newlines_start(part));
    if b.len() > 0 {
        assert(part.drop_first() =~= b + seq!['\n']);
        let y = b + seq!['\n'];
        assert(crate::store::read::trim_newlines_start(part) == crate::store::read::trim_newlines_start(y));
        assert(y[0] == b[0]);
        lemma_trim_newlines_id(y);
        lemma_trim_start_id(y);
        assert(y.drop_last() =~= b);
        lemma_trim_end_id(b);
        assert(trim_end_seq(y) == trim_end_seq(b));
        assert(trim_seq(y) == trim_end_seq(trim_start_seq(y)));
    } else {
        assert(part =~= Seq::<char>::empty());
        assert(crate::store::read::trim_newlines_start(part) =~= Seq::<char>::empty());
        assert(trim_seq(Seq::<char>::empty()) =~= Seq::<char>::empty());
    }
}

// ---------------------------------------------------------------------------
// the law
// ---------------------------------------------------------------------------

pub open spec fn body_part(t: TaskView) -> Seq<char> {
    let b = trim_seq(t.body);
    if b.len() > 0 {
        seq!['\n'] + b + seq!['\n']
    } else {
        seq![]
    }
}

/// The rendered text splits into the written frontmatter (less its last
/// line break) and what follows the closing fence.
#[verifier::rlimit(40)]
proof fn lemma_split_rendered(t: TaskView)
    requires
        storable(t),
    ensures
        frontmatter_spec(t).len() > 0,
        split_frontmatter_spec(render_spec(t)) == Some(
            (frontmatter_spec(t).drop_last(), trim_newlines_start(seq!['\n'] + body_part(t))),
        ),
        lines_seq(frontmatter_spec(t).drop_last()) == front_lines(t),
{
    let ls = front_lines(t);
    lemma_front_verbatim(t);
    lemma_frame_lines(t);
    let f = frontmatter_spec(t);
    let part = body_part(t);
    let text = render_spec(t);
    reveal_strlit("---\n");
    reveal_strlit("\n---");
    assert(text =~= seq!['-', '-', '-', '\n'] + f + seq!['-', '-', '-', '\n'] + part);
    assert(starts_with(text, "---\n"@)) by {
        assert(text.subrange(0, 4) =~= "---\n"@);
    }
    let rest = text.skip(4);
    let tail = seq!['-', '-', '-', '\n'] + part;
    assert(rest =~= f + tail);
    assert(front_rest(text) == Some(rest));
    assert(ls.len() >= 4);
    lemma_verbatim_ends(ls);
    let e = f.len() - 1;
    lemma_no_early_fence(ls, tail);
    assert("\n---"@ =~= fence_mark());
    assert(occurs_at(rest, "\n---"@, e)) by {
        assert(rest.subrange(e, e + 4) =~= fence_mark());
    }
    lemma_first_is(rest, "\n---"@, e);
    assert(rest.take(e) =~= f.drop_last());
    assert(rest.skip(e + 4) =~= seq!['\n'] + part);
    lemma_split_verbatim_open(ls);
}

/// Rendering a task the format can hold and parsing the text back, from the
/// status directory it was written to, gives the same task: every field, the
/// unmodeled frontmatter lines, and the body.
pub proof fn parse_after_render(t: TaskView)
    requires
        storable(t),
    ensures
        parse_task_spec(render_spec(t), t.status) == Some(t),
{
    lemma_split_rendered(t);
    lemma_front_fold(t);
    let b = trim_seq(t.body);
    assert(b == trim_seq(b));
    lemma_body_back(b);
}

} // verus!
