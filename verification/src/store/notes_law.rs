//! What `parse_notes` reads back of `append_note`.

use vstd::prelude::*;
use crate::text::{
    is_ws, trim_seq, trim_start_seq, trim_end_seq, lines_seq, split_seq, strip_cr, join_seq,
    first_from, occurs_at, contains_seq, starts_with, lemma_first_from, lemma_split_none,
    lemma_join_push, lemma_lines_cat, lemma_lines_one,
};
use crate::store::notes::{
    append_note_spec, note_head_spec, note_rule, note_mark, actor_open, last_from,
    split_note_head_spec, is_delim, next_delim, note_at, notes_from, parse_notes_spec,
    lemma_next_delim, lemma_last_from,
};
use crate::store::roundtrip::{one_line, lemma_trim_id, lemma_trim_end_last, lemma_trimmed_ends};

verus! {

/// The actor a note head keeps: the trimmed actor, when it is not blank.
pub open spec fn kept_actor(actor: Option<Seq<char>>) -> Option<Seq<char>> {
    match actor {
        Some(a) => if trim_seq(a).len() > 0 {
            Some(trim_seq(a))
        } else {
            None
        },
        None => None,
    }
}

/// A note that reads back as written: a one-line timestamp with no white
/// space at its ends and no ` [` in it; a kept actor on one line with no
/// ` [` in it, after a non-empty timestamp; and a text none of whose lines
/// opens a note block.
pub open spec fn note_reads_back(ts: Seq<char>, actor: Option<Seq<char>>, note: Seq<char>) -> bool {
    &&& one_line(ts)
    &&& trim_seq(ts) == ts
    &&& !contains_seq(ts, actor_open())
    &&& match kept_actor(actor) {
        Some(a) => ts.len() > 0 && one_line(a) && !contains_seq(a, actor_open()),
        None => true,
    }
    &&& forall|k: int| !is_delim(lines_seq(note), k)
}

// ---------------------------------------------------------------------------
// lines of a concatenation
// ---------------------------------------------------------------------------



/// The last piece of a text that does not end in a line break is not empty.
proof fn lemma_split_last(s: Seq<char>)
    requires
        s.len() > 0,
        s.last() != '\n',
    ensures
        split_seq(s, '\n').len() >= 1,
        split_seq(s, '\n').last().len() > 0,
    decreases s.len(),
{
    lemma_first_from(s, seq!['\n'], 0);
    match first_from(s, seq!['\n'], 0) {
        None => {},
        Some(i) => {
            assert(s[i] == '\n') by {
                assert(s.subrange(i, i + 1)[0] == s[i]);
            }
            let r = s.skip(i + 1);
            assert(r.len() > 0);
            assert(r.last() == s.last());
            lemma_split_last(r);
            assert(split_seq(s, '\n') == seq![s.take(i)] + split_seq(r, '\n'));
        },
    }
}



proof fn lemma_lines_whole(x: Seq<char>)
    requires
        x.len() > 0,
        x.last() != '\n',
    ensures
        lines_seq(x) == split_seq(x, '\n').map_values(|l: Seq<char>| strip_cr(l)),
{
    lemma_split_last(x);
}

// ---------------------------------------------------------------------------
// trimming a joined text
// ---------------------------------------------------------------------------


proof fn lemma_trim_start_cat(s: Seq<char>, t: Seq<char>)
    ensures
        trim_start_seq(s + t) == if trim_start_seq(s).len() > 0 {
            trim_start_seq(s) + t
        } else {
            trim_start_seq(t)
        },
    decreases s.len(),
{
    if s.len() == 0 {
        assert(s + t =~= t);
    } else if is_ws(s[0]) {
        assert((s + t).drop_first() =~= s.drop_first() + t);
        lemma_trim_start_cat(s.drop_first(), t);
    } else {
        assert((s + t)[0] == s[0]);
    }
}

proof fn lemma_trim_break(s: Seq<char>)
    ensures
        trim_seq(s + seq!['\n']) == trim_seq(s),
{
    lemma_trim_start_cat(s, seq!['\n']);
    assert(is_ws('\n'));
    assert(trim_start_seq(seq!['\n']) == trim_start_seq(seq!['\n'].drop_first()));
    assert(seq!['\n'].drop_first() =~= Seq::<char>::empty());
    let a = trim_start_seq(s);
    if a.len() > 0 {
        assert((a + seq!['\n']).drop_last() =~= a);
    }
}

/// A trailing empty line changes nothing of a trimmed joined text.
proof fn lemma_trim_join_blank(xs: Seq<Seq<char>>)
    ensures
        trim_seq(join_seq(xs.push(seq![]), seq!['\n'])) == trim_seq(join_seq(xs, seq!['\n'])),
{
    if xs.len() == 0 {
        assert(xs.push(seq![]) =~= seq![Seq::<char>::empty()]);
        assert(join_seq(xs.push(seq![]), seq!['\n']) == Seq::<char>::empty());
    } else {
        lemma_join_push(xs, seq![]);
        let j = join_seq(xs, seq!['\n']);
        assert(j + seq!['\n'] + Seq::<char>::empty() =~= j + seq!['\n']);
        lemma_trim_break(j);
    }
}

// ---------------------------------------------------------------------------
// the notes of lines that end in a new block
// ---------------------------------------------------------------------------

proof fn lemma_blank_not_rule()
    ensures
        trim_end_seq(Seq::<char>::empty()) != note_rule(),
        !starts_with(Seq::<char>::empty(), note_mark()),
{
    assert(trim_end_seq(Seq::<char>::empty()).len() == 0);
}

proof fn lemma_no_delim_after(ls: Seq<Seq<char>>, k: int)
    requires
        0 <= k <= ls.len(),
        forall|m: int| k <= m < ls.len() ==> !is_delim(ls, m),
    ensures
        next_delim(ls, k) == ls.len(),
    decreases ls.len() - k,
{
    if k < ls.len() {
        lemma_no_delim_after(ls, k + 1);
    }
}

/// A delimiter at `base` with none after it opens the last note.
proof fn lemma_last_block(ls: Seq<Seq<char>>, base: int)
    requires
        0 <= base,
        base + 1 < ls.len(),
        is_delim(ls, base),
        forall|m: int| base + 2 <= m < ls.len() ==> !is_delim(ls, m),
    ensures
        notes_from(ls, base) == seq![note_at(ls, base, ls.len() as int)],
{
    lemma_no_delim_after(ls, base + 2);
    assert(notes_from(ls, ls.len() as int) == Seq::<(Seq<char>, Option<Seq<char>>, Seq<char>)>::empty());
}

/// Where `ls` continues the lines `d` and a first delimiter follows at
/// `base` (right after them, or after one blank line), the next delimiter of
/// `ls` is that of `d`, or `base` where `d` has none left.
proof fn lemma_next_rel(d: Seq<Seq<char>>, ls: Seq<Seq<char>>, base: int, k: int)
    requires
        base + 1 < ls.len(),
        base == d.len() || (base == d.len() + 1 && ls[d.len() as int] == Seq::<char>::empty()),
        forall|m: int| 0 <= m < d.len() ==> ls[m] == d[m],
        d.len() > 0 ==> !starts_with(ls[d.len() as int], note_mark()),
        is_delim(ls, base),
        0 <= k <= d.len(),
    ensures
        next_delim(ls, k) == if next_delim(d, k) < d.len() {
            next_delim(d, k)
        } else {
            base
        },
    decreases d.len() - k,
{
    if k == d.len() {
        if base == d.len() + 1 {
            lemma_blank_not_rule();
            assert(!is_delim(ls, k));
            assert(next_delim(ls, k + 1) == base);
        }
    } else {
        assert(is_delim(ls, k) == is_delim(d, k));
        if !is_delim(d, k) {
            lemma_next_rel(d, ls, base, k + 1);
        }
    }
}

/// The notes of `ls` from line `i` are those of `d` from `i`, then `x`.
proof fn lemma_notes_prefix(
    d: Seq<Seq<char>>,
    ls: Seq<Seq<char>>,
    base: int,
    x: (Seq<char>, Option<Seq<char>>, Seq<char>),
    i: int,
)
    requires
        base + 1 < ls.len(),
        base == d.len() || (base == d.len() + 1 && ls[d.len() as int] == Seq::<char>::empty()),
        forall|m: int| 0 <= m < d.len() ==> ls[m] == d[m],
        d.len() > 0 ==> !starts_with(ls[d.len() as int], note_mark()),
        is_delim(ls, base),
        notes_from(ls, base) == seq![x],
        0 <= i <= d.len(),
    ensures
        notes_from(ls, i) == notes_from(d, i).push(x),
    decreases d.len() - i,
{
    if i == d.len() {
        assert(notes_from(d, i) == Seq::<(Seq<char>, Option<Seq<char>>, Seq<char>)>::empty());
        if base == d.len() + 1 {
            lemma_blank_not_rule();
            assert(!is_delim(ls, i));
        }
        assert(notes_from(d, i).push(x) =~= seq![x]);
    } else {
        assert(is_delim(ls, i) == is_delim(d, i));
        if !is_delim(d, i) {
            lemma_notes_prefix(d, ls, base, x, i + 1);
        } else {
            lemma_next_rel(d, ls, base, i + 2);
            lemma_next_delim(d, i + 2);
            let jd = next_delim(d, i + 2);
            if jd < d.len() {
                lemma_notes_prefix(d, ls, base, x, jd);
                assert(ls.subrange(i + 2, jd) =~= d.subrange(i + 2, jd));
                assert(note_at(ls, i, jd) == note_at(d, i, jd));
                assert(notes_from(ls, i) =~= notes_from(d, i).push(x));
            } else {
                assert(notes_from(d, jd) == Seq::<(Seq<char>, Option<Seq<char>>, Seq<char>)>::empty());
                let body = d.subrange(i + 2, d.len() as int);
                if base == d.len() {
                    assert(ls.subrange(i + 2, base) =~= body);
                } else {
                    assert(ls.subrange(i + 2, base) =~= body.push(seq![]));
                    lemma_trim_join_blank(body);
                }
                assert(note_at(ls, i, base) == note_at(d, i, jd));
                assert(notes_from(ls, i) =~= notes_from(d, i).push(x));
            }
        }
    }
}

// ---------------------------------------------------------------------------
// the head line
// ---------------------------------------------------------------------------

proof fn lemma_last_is(s: Seq<char>, pat: Seq<char>, k: int, m: int)
    requires
        0 <= m <= k,
        occurs_at(s, pat, m),
        forall|j: int| m < j <= k ==> !occurs_at(s, pat, j),
    ensures
        last_from(s, pat, k) == Some(m),
    decreases k - m,
{
    if k > m {
        lemma_last_is(s, pat, k - 1, m);
    }
}

/// The head line `append_note` writes is one clean line that splits back
/// into the timestamp and the kept actor.
proof fn lemma_head_reads(ts: Seq<char>, actor: Option<Seq<char>>)
    requires
        one_line(ts),
        trim_seq(ts) == ts,
        !contains_seq(ts, actor_open()),
        match kept_actor(actor) {
            Some(a) => ts.len() > 0 && one_line(a) && !contains_seq(a, actor_open()),
            None => true,
        },
    ensures
        one_line(note_mark() + note_head_spec(ts, actor)),
        strip_cr(note_mark() + note_head_spec(ts, actor)) == note_mark() + note_head_spec(ts, actor),
        trim_seq(note_head_spec(ts, actor)) == note_head_spec(ts, actor),
        split_note_head_spec(note_head_spec(ts, actor)) == (ts, kept_actor(actor)),
{
    let h = note_head_spec(ts, actor);
    let l = note_mark() + h;
    lemma_trimmed_ends(ts);
    assert(is_ws('\r'));
    match kept_actor(actor) {
        None => {
            assert(h == ts);
            assert forall|j: int| 0 <= j < l.len() implies l[j] != '\n' by {
                if j >= 2 {
                    assert(l[j] == ts[j - 2]);
                }
            }
            if ts.len() > 0 {
                assert(l.last() == ts.last());
            }
            if ts.len() > 0 && ts.last() == ']' {
                lemma_last_from(ts, actor_open(), ts.len() - 2);
            }
        },
        Some(a) => {
            let pat = actor_open();
            assert(h == ts + pat + a + seq![']']);
            let n = ts.len() as int;
            assert forall|j: int| 0 <= j < l.len() implies l[j] != '\n' by {
                if 2 <= j < n + 2 {
                    assert(l[j] == ts[j - 2]);
                } else if n + 4 <= j < l.len() - 1 {
                    assert(l[j] == a[j - n - 4]);
                }
            }
            assert(l.last() == ']');
            assert(h[0] == ts[0]);
            lemma_trim_id(h);
            assert(occurs_at(h, pat, n)) by {
                assert(h.subrange(n, n + 2) =~= pat);
            }
            assert forall|j: int| n < j <= h.len() - 2 implies !occurs_at(h, pat, j) by {
                if j == n + 1 {
                    assert(h.subrange(j, j + 2)[0] == h[j]);
                } else if j == h.len() - 2 {
                    assert(h.subrange(j, j + 2)[1] == h[j + 1]);
                } else if occurs_at(h, pat, j) {
                    assert(a.subrange(j - n - 2, j - n) =~= h.subrange(j, j + 2));
                    assert(occurs_at(a, pat, j - n - 2));
                }
            }
            lemma_last_is(h, pat, h.len() - 2, n);
            assert(h.take(n) =~= ts);
            assert(h.subrange(n + 2, h.len() - 1) =~= a);
        },
    }
}

/// A note head reads back: splitting the head `append_note` writes gives
/// the timestamp and the kept actor, for a one-line trimmed timestamp with
/// no ` [` in it and a kept actor on one line with no ` [` in it, after a
/// non-empty timestamp.
pub proof fn note_head_reads_back(ts: Seq<char>, actor: Option<Seq<char>>)
    requires
        one_line(ts),
        trim_seq(ts) == ts,
        !contains_seq(ts, actor_open()),
        match kept_actor(actor) {
            Some(a) => ts.len() > 0 && one_line(a) && !contains_seq(a, actor_open()),
            None => true,
        },
    ensures
        split_note_head_spec(note_head_spec(ts, actor)) == (ts, kept_actor(actor)),
{
    lemma_head_reads(ts, actor);
}

// ---------------------------------------------------------------------------
// the law
// ---------------------------------------------------------------------------

/// Appending a note and parsing the body's notes gives back the notes the
/// body had (read after its trailing white space is dropped, as
/// `append_note` drops it) followed by the new note: its timestamp, its kept
/// actor, and its text trimmed. This holds for every body, and for every
/// note that reads back as written.
pub proof fn append_then_parse(
    body: Seq<char>,
    ts: Seq<char>,
    actor: Option<Seq<char>>,
    note: Seq<char>,
)
    requires
        note_reads_back(ts, actor, note),
    ensures
        parse_notes_spec(append_note_spec(body, ts, actor, note)) == parse_notes_spec(
            trim_end_seq(body),
        ).push((ts, kept_actor(actor), trim_seq(join_seq(lines_seq(note), seq!['\n'])))),
{
    let desc = trim_end_seq(body);
    let hd = note_head_spec(ts, actor);
    let h = note_mark() + hd;
    lemma_head_reads(ts, actor);
    let n = lines_seq(note);
    let x = (ts, kept_actor(actor), trim_seq(join_seq(n, seq!['\n'])));
    let tail = note_rule() + seq!['\n'] + h + seq!['\n'] + note;
    assert(tail =~= note_rule() + seq!['\n'] + (h + seq!['\n'] + note));
    assert(one_line(note_rule()));
    lemma_lines_one(note_rule(), h + seq!['\n'] + note);
    lemma_lines_one(h, note);
    assert(strip_cr(note_rule()) == note_rule());
    let t = seq![note_rule(), h] + n;
    assert(lines_seq(tail) =~= t);
    let s = append_note_spec(body, ts, actor, note);
    assert(trim_end_seq(note_rule()) == note_rule()) by {
        assert(!is_ws('-'));
    }
    assert(starts_with(h, note_mark())) by {
        assert(h.subrange(0, 2) =~= note_mark());
    }
    assert(h.skip(2) =~= hd);
    let ls: Seq<Seq<char>>;
    let base: int;
    let d: Seq<Seq<char>>;
    if desc.len() == 0 {
        assert(s =~= tail);
        ls = t;
        base = 0;
        d = seq![];
        lemma_split_none(desc, '\n');
        assert(lines_seq(desc) =~= d);
    } else {
        lemma_trim_end_last(body);
        assert(is_ws('\n'));
        assert(s =~= desc + seq!['\n'] + (Seq::<char>::empty() + seq!['\n'] + tail));
        lemma_lines_cat(desc, Seq::<char>::empty() + seq!['\n'] + tail);
        assert(one_line(Seq::<char>::empty()));
        lemma_lines_one(Seq::<char>::empty(), tail);
        assert(strip_cr(Seq::<char>::empty()) == Seq::<char>::empty());
        lemma_lines_whole(desc);
        d = lines_seq(desc);
        ls = d + seq![Seq::<char>::empty()] + t;
        base = d.len() as int + 1;
        assert(lines_seq(s) =~= ls);
    }
    assert(lines_seq(s) == ls);
    assert(ls[base] == note_rule());
    assert(ls[base + 1] == h);
    assert(is_delim(ls, base));
    assert forall|m: int| base + 2 <= m < ls.len() implies !is_delim(ls, m) by {
        if is_delim(ls, m) {
            assert(ls[m] == n[m - base - 2]);
            assert(ls[m + 1] == n[m + 1 - base - 2]);
            assert(is_delim(n, m - base - 2));
        }
    }
    lemma_last_block(ls, base);
    assert(ls.subrange(base + 2, ls.len() as int) =~= n);
    assert(note_at(ls, base, ls.len() as int) == x);
    if desc.len() == 0 {
        assert(notes_from(d, 0) == Seq::<(Seq<char>, Option<Seq<char>>, Seq<char>)>::empty());
        assert(notes_from(d, 0).push(x) =~= seq![x]);
    } else {
        lemma_blank_not_rule();
        lemma_notes_prefix(d, ls, base, x, 0);
    }
}

} // verus!
