//! What `parse` and `assemble` give back of each other.

use vstd::prelude::*;
use crate::text::{
    is_ws, trim_seq, trim_start_seq, trim_end_seq, split_seq, join_seq, lemma_split_none,
    lemma_split_cat, lemma_split_nonempty, lemma_join_push, lemma_join_split,
};
use crate::tui::content::{
    mark, rule, is_marker, next_marker, strip_marks, marker_ts, joined, comments_from, parse_spec,
    assemble_from,
};
use crate::store::notes::{append_note_spec, note_head_spec};
use crate::store::notes_law::kept_actor;
use crate::store::roundtrip::{one_line, lemma_trim_id, lemma_trim_end_last, lemma_trimmed_ends};

verus! {

/// No line of `s` opens a comment.
pub open spec fn no_marker(s: Seq<char>) -> bool {
    forall|m: int| !is_marker(split_seq(s, '\n'), m)
}

/// A comment `assemble` writes and `parse` reads back: a one-line trimmed
/// timestamp, and a text that is not blank, has no trailing white space, and
/// has no line that opens a comment.
pub open spec fn comment_ok(b: (Option<Seq<char>>, Seq<char>)) -> bool {
    match b.0 {
        Some(ts) => one_line(ts) && trim_seq(ts) == ts && b.1.len() > 0 && trim_end_seq(b.1)
            == b.1 && no_marker(b.1),
        None => false,
    }
}

/// Blocks in the shape `parse` returns: a description with no trailing white
/// space and no line that opens a comment, then comments as above.
pub open spec fn blocks_ok(bs: Seq<(Option<Seq<char>>, Seq<char>)>) -> bool {
    &&& bs.len() >= 1
    &&& bs[0].0 is None
    &&& trim_end_seq(bs[0].1) == bs[0].1
    &&& no_marker(bs[0].1)
    &&& forall|k: int| 1 <= k < bs.len() ==> comment_ok(#[trigger] bs[k])
}

pub open spec fn ts_of(b: (Option<Seq<char>>, Seq<char>)) -> Seq<char> {
    match b.0 {
        Some(t) => t,
        None => seq![],
    }
}

/// The lines of the comments as `assemble` writes them.
pub open spec fn comment_lines(cs: Seq<(Option<Seq<char>>, Seq<char>)>) -> Seq<Seq<char>>
    decreases cs.len(),
{
    if cs.len() == 0 {
        seq![]
    } else {
        let own = seq![rule(), seq![mark(), ' '] + ts_of(cs[0])] + split_seq(cs[0].1, '\n');
        if cs.len() == 1 {
            own
        } else {
            own + seq![Seq::<char>::empty()] + comment_lines(cs.drop_first())
        }
    }
}


/// A trailing empty line changes nothing of a joined text once its trailing
/// white space is removed.
proof fn lemma_trim_end_join_blank(xs: Seq<Seq<char>>)
    ensures
        trim_end_seq(join_seq(xs.push(seq![]), seq!['\n'])) == trim_end_seq(
            join_seq(xs, seq!['\n']),
        ),
{
    if xs.len() == 0 {
        assert(xs.push(seq![]) =~= seq![Seq::<char>::empty()]);
        assert(join_seq(xs.push(seq![]), seq!['\n']) == Seq::<char>::empty());
    } else {
        lemma_join_push(xs, seq![]);
        let j = join_seq(xs, seq!['\n']);
        let t = j + seq!['\n'] + Seq::<char>::empty();
        assert(is_ws('\n'));
        assert(t.drop_last() =~= j);
    }
}

proof fn lemma_skip_markers(ls: Seq<Seq<char>>, a: int, b: int)
    requires
        0 <= a <= b <= ls.len(),
        forall|m: int| a <= m < b ==> !is_marker(ls, m),
    ensures
        next_marker(ls, a) == next_marker(ls, b),
    decreases b - a,
{
    if a < b {
        lemma_skip_markers(ls, a + 1, b);
    }
}

proof fn lemma_blank_line()
    ensures
        trim_end_seq(Seq::<char>::empty()) != rule(),
        trim_start_seq(Seq::<char>::empty()).len() == 0,
{
    assert(trim_end_seq(Seq::<char>::empty()).len() == 0);
}

/// The marker line written for `ts` opens a comment and carries `ts`.
proof fn lemma_marker_line(ts: Seq<char>)
    requires
        trim_seq(ts) == ts,
    ensures
        trim_end_seq(seq![mark(), ' '] + ts) != rule(),
        trim_start_seq(seq![mark(), ' '] + ts).len() > 0,
        trim_start_seq(seq![mark(), ' '] + ts)[0] == mark(),
        marker_ts(seq![mark(), ' '] + ts) == ts,
{
    let l = seq![mark(), ' '] + ts;
    assert(!is_ws(mark()));
    assert(trim_start_seq(l) == l);
    assert(l.drop_first() =~= seq![' '] + ts);
    assert(strip_marks(l) == strip_marks(l.drop_first()));
    assert(strip_marks(seq![' '] + ts) == seq![' '] + ts);
    assert(is_ws(' '));
    assert((seq![' '] + ts).drop_first() =~= ts);
    assert(trim_start_seq(seq![' '] + ts) == trim_start_seq(ts));
    lemma_trim_end_last(l);
    if trim_end_seq(l) == rule() {
        assert(trim_end_seq(l)[0] == l[0]);
    }
}

proof fn lemma_rule_line()
    ensures
        trim_end_seq(rule()) == rule(),
        one_line(rule()),
{
    assert(!is_ws('-'));
}

/// Comments that `assemble` keeps: after earlier text they are set off by a
/// blank line, and their lines are `comment_lines`.
proof fn lemma_assemble_comments(cs: Seq<(Option<Seq<char>>, Seq<char>)>)
    requires
        cs.len() > 0,
        forall|k: int| 0 <= k < cs.len() ==> comment_ok(#[trigger] cs[k]),
    ensures
        assemble_from(cs, true) == seq!['\n', '\n'] + assemble_from(cs, false),
        split_seq(assemble_from(cs, false), '\n') == comment_lines(cs),
    decreases cs.len(),
{
    let c = cs[0];
    assert(comment_ok(c));
    let ts = ts_of(c);
    let text = c.1;
    let rest = cs.drop_first();
    let ar = assemble_from(rest, true);
    let head = seq![mark(), ' '] + ts;
    assert(assemble_from(cs, true) =~= seq!['\n', '\n'] + assemble_from(cs, false));
    let x = assemble_from(cs, false);
    assert(x =~= rule() + seq!['\n'] + (head + seq!['\n'] + (text + ar)));
    lemma_rule_line();
    lemma_split_cat(rule(), head + seq!['\n'] + (text + ar));
    lemma_split_none(rule(), '\n');
    assert(one_line(head)) by {
        assert forall|j: int| 0 <= j < head.len() implies head[j] != '\n' by {
            if j >= 2 {
                assert(head[j] == ts[j - 2]);
            }
        }
    }
    lemma_split_cat(head, text + ar);
    lemma_split_none(head, '\n');
    let own = seq![rule(), head] + split_seq(text, '\n');
    if rest.len() == 0 {
        assert(ar == Seq::<char>::empty());
        assert(text + ar =~= text);
        assert(split_seq(x, '\n') =~= own);
    } else {
        assert forall|k: int| 0 <= k < rest.len() implies comment_ok(#[trigger] rest[k]) by {
            assert(rest[k] == cs[k + 1]);
        }
        lemma_assemble_comments(rest);
        let y = assemble_from(rest, false);
        assert(text + ar =~= text + seq!['\n'] + (Seq::<char>::empty() + seq!['\n'] + y));
        lemma_split_cat(text, Seq::<char>::empty() + seq!['\n'] + y);
        lemma_split_cat(Seq::<char>::empty(), y);
        lemma_split_none(Seq::<char>::empty(), '\n');
        assert(split_seq(x, '\n') =~= own + seq![Seq::<char>::empty()] + comment_lines(rest));
    }
}

/// Lines that end in `comment_lines(cs)` from `off` on parse back into `cs`.
proof fn lemma_parse_comments(ls: Seq<Seq<char>>, off: int, cs: Seq<(Option<Seq<char>>, Seq<char>)>)
    requires
        cs.len() > 0,
        forall|k: int| 0 <= k < cs.len() ==> comment_ok(#[trigger] cs[k]),
        0 <= off <= ls.len(),
        ls.subrange(off, ls.len() as int) == comment_lines(cs),
    ensures
        is_marker(ls, off),
        comments_from(ls, off) == cs,
    decreases cs.len(),
{
    let c = cs[0];
    assert(comment_ok(c));
    let ts = ts_of(c);
    let text = c.1;
    let rest = cs.drop_first();
    let head = seq![mark(), ' '] + ts;
    let st = split_seq(text, '\n');
    lemma_split_nonempty(text);
    let cl = comment_lines(cs);
    let e = off + 2 + st.len();
    assert(cl.len() >= 2 + st.len());
    assert(cl[0] == rule());
    assert(cl[1] == head);
    let sub = ls.subrange(off, ls.len() as int);
    assert(sub[0] == ls[off]);
    assert(sub[1] == ls[off + 1]);
    assert(ls[off] == cl[0]);
    assert(ls[off + 1] == cl[1]);
    assert forall|m: int| 0 <= m < st.len() implies ls[off + 2 + m] == st[m] by {
        assert(sub[2 + m] == ls[off + 2 + m]);
        assert(ls[off + 2 + m] == cl[2 + m]);
    }
    lemma_rule_line();
    lemma_marker_line(ts);
    assert(is_marker(ls, off));
    lemma_join_split(text);
    assert(trim_end_seq(join_seq(st, seq!['\n'])) == text);
    if rest.len() == 0 {
        assert(ls.len() == e);
        assert forall|m: int| off + 2 <= m < e implies !is_marker(ls, m) by {
            if is_marker(ls, m) {
                assert(is_marker(st, m - off - 2));
            }
        }
        lemma_skip_markers(ls, off + 2, e);
        assert(ls.subrange(off + 2, e) =~= st);
        assert(comments_from(ls, e) == Seq::<(Option<Seq<char>>, Seq<char>)>::empty());
        assert(comments_from(ls, off) =~= cs);
    } else {
        assert forall|k: int| 0 <= k < rest.len() implies comment_ok(#[trigger] rest[k]) by {
            assert(rest[k] == cs[k + 1]);
        }
        assert(sub[e - off] == ls[e]);
        assert(ls[e] == cl[e - off]);
        assert(ls[e] == Seq::<char>::empty());
        let off2 = e + 1;
        let own = seq![rule(), head] + st;
        assert(cl == own + seq![Seq::<char>::empty()] + comment_lines(rest));
        assert(cl.subrange(own.len() as int + 1, cl.len() as int) =~= comment_lines(rest));
        assert(ls.subrange(off2, ls.len() as int) =~= sub.subrange(off2 - off, sub.len() as int));
        assert(ls.subrange(off2, ls.len() as int) =~= comment_lines(rest));
        lemma_parse_comments(ls, off2, rest);
        lemma_blank_line();
        assert forall|m: int| off + 2 <= m < off2 implies !is_marker(ls, m) by {
            if is_marker(ls, m) {
                if m < e - 1 {
                    assert(is_marker(st, m - off - 2));
                }
            }
        }
        lemma_skip_markers(ls, off + 2, off2);
        assert(ls.subrange(off + 2, off2) =~= st.push(seq![]));
        lemma_trim_end_join_blank(st);
        assert(comments_from(ls, off) =~= cs);
    }
}

// ---------------------------------------------------------------------------
// the laws
// ---------------------------------------------------------------------------

/// `parse` reads back the blocks `assemble` wrote from blocks in the shape
/// `parse` returns.
pub proof fn parse_inverts_assemble(bs: Seq<(Option<Seq<char>>, Seq<char>)>)
    requires
        blocks_ok(bs),
    ensures
        parse_spec(assemble_from(bs, false)) == bs,
{
    let desc = bs[0].1;
    let cs = bs.drop_first();
    assert forall|k: int| 0 <= k < cs.len() implies comment_ok(#[trigger] cs[k]) by {
        assert(cs[k] == bs[k + 1]);
    }
    let body = assemble_from(bs, false);
    assert(body == desc + assemble_from(cs, desc.len() > 0));
    let ls = split_seq(body, '\n');
    let sd = split_seq(desc, '\n');
    lemma_split_nonempty(desc);
    lemma_join_split(desc);
    lemma_blank_line();
    if cs.len() == 0 {
        assert(body =~= desc);
        assert forall|m: int| 0 <= m < ls.len() implies !is_marker(ls, m) by {
            assert(!is_marker(sd, m));
        }
        lemma_skip_markers(ls, 0, ls.len() as int);
        assert(ls.subrange(0, ls.len() as int) =~= ls);
        assert(comments_from(ls, ls.len() as int) == Seq::<(Option<Seq<char>>, Seq<char>)>::empty());
        assert(parse_spec(body) =~= bs);
    } else {
        lemma_assemble_comments(cs);
        let y = assemble_from(cs, false);
        if desc.len() == 0 {
            assert(body =~= y);
            assert(ls.subrange(0, ls.len() as int) =~= ls);
            lemma_parse_comments(ls, 0, cs);
            assert(ls.subrange(0, 0) =~= Seq::<Seq<char>>::empty());
            assert(join_seq(Seq::<Seq<char>>::empty(), seq!['\n']) == Seq::<char>::empty());
            assert(trim_end_seq(Seq::<char>::empty()) == Seq::<char>::empty());
            assert(next_marker(ls, 0) == 0);
            assert(joined(ls, 0, 0) == desc);
            assert(bs[0] == (None::<Seq<char>>, desc));
            assert(parse_spec(body) =~= seq![(None::<Seq<char>>, desc)] + cs);
            assert(parse_spec(body) =~= bs);
        } else {
            assert(body =~= desc + seq!['\n'] + (Seq::<char>::empty() + seq!['\n'] + y));
            lemma_split_cat(desc, Seq::<char>::empty() + seq!['\n'] + y);
            lemma_split_cat(Seq::<char>::empty(), y);
            lemma_split_none(Seq::<char>::empty(), '\n');
            assert(ls =~= sd + seq![Seq::<char>::empty()] + comment_lines(cs));
            let p = sd.len() as int + 1;
            assert(ls.subrange(p, ls.len() as int) =~= comment_lines(cs));
            lemma_parse_comments(ls, p, cs);
            assert forall|m: int| 0 <= m < p implies !is_marker(ls, m) by {
                if m < sd.len() - 1 {
                    assert(!is_marker(sd, m));
                }
            }
            lemma_skip_markers(ls, 0, p);
            assert(ls.subrange(0, p) =~= sd.push(seq![]));
            lemma_trim_end_join_blank(sd);
            assert(parse_spec(body) =~= bs);
        }
    }
}

/// A body `assemble` wrote from blocks in the shape `parse` returns comes
/// back byte for byte from `parse` then `assemble`.
pub proof fn parse_then_assemble(bs: Seq<(Option<Seq<char>>, Seq<char>)>)
    requires
        blocks_ok(bs),
    ensures
        assemble_from(parse_spec(assemble_from(bs, false)), false) == assemble_from(bs, false),
{
    parse_inverts_assemble(bs);
}

/// Whether `assemble` has written anything once it is past `bs`.
pub open spec fn wrote_after(bs: Seq<(Option<Seq<char>>, Seq<char>)>, wrote: bool) -> bool
    decreases bs.len(),
{
    if bs.len() == 0 {
        wrote
    } else {
        let text = trim_end_seq(bs[0].1);
        match bs[0].0 {
            None => wrote_after(bs.drop_first(), text.len() > 0),
            Some(_) => wrote_after(bs.drop_first(), wrote || text.len() > 0),
        }
    }
}

proof fn lemma_assemble_push(
    bs: Seq<(Option<Seq<char>>, Seq<char>)>,
    wrote: bool,
    c: (Option<Seq<char>>, Seq<char>),
)
    ensures
        assemble_from(bs.push(c), wrote) == assemble_from(bs, wrote) + assemble_from(
            seq![c],
            wrote_after(bs, wrote),
        ),
    decreases bs.len(),
{
    if bs.len() == 0 {
        assert(bs.push(c) =~= seq![c]);
        assert(assemble_from(bs, wrote) + assemble_from(seq![c], wrote) =~= assemble_from(
            seq![c],
            wrote,
        ));
    } else {
        let rest = bs.drop_first();
        assert(bs.push(c).drop_first() =~= rest.push(c));
        assert(bs.push(c)[0] == bs[0]);
        let text = trim_end_seq(bs[0].1);
        match bs[0].0 {
            None => {
                lemma_assemble_push(rest, text.len() > 0, c);
            },
            Some(_) => {
                lemma_assemble_push(rest, wrote, c);
                lemma_assemble_push(rest, true, c);
            },
        }
        assert(assemble_from(bs.push(c), wrote) =~= assemble_from(bs, wrote) + assemble_from(
            seq![c],
            wrote_after(bs, wrote),
        ));
    }
}

/// Kept comments: `assemble` writes something for them, ending in a char
/// that is not white space.
proof fn lemma_comments_end(cs: Seq<(Option<Seq<char>>, Seq<char>)>, wrote: bool)
    requires
        forall|k: int| 0 <= k < cs.len() ==> comment_ok(#[trigger] cs[k]),
    ensures
        wrote_after(cs, wrote) == (wrote || cs.len() > 0),
        (assemble_from(cs, wrote).len() > 0) == (cs.len() > 0),
        cs.len() > 0 ==> !is_ws(assemble_from(cs, wrote).last()),
    decreases cs.len(),
{
    if cs.len() > 0 {
        let rest = cs.drop_first();
        assert forall|k: int| 0 <= k < rest.len() implies comment_ok(#[trigger] rest[k]) by {
            assert(rest[k] == cs[k + 1]);
        }
        assert(comment_ok(cs[0]));
        let text = cs[0].1;
        lemma_trim_end_last(text);
        lemma_comments_end(rest, true);
        lemma_comments_end(rest, wrote);
        let a = assemble_from(cs, wrote);
        let ar = assemble_from(rest, true);
        if rest.len() == 0 {
            assert(ar.len() == 0);
            assert(a.last() == text.last());
        } else {
            assert(a.last() == ar.last());
        }
    }
}

/// `append_note` on a body `assemble` wrote from blocks in the shape `parse`
/// returns writes the body assembled from those blocks and one more comment,
/// headed by the note's head line; the blocks stay in that shape. So every
/// body built from a description by `append_note` comes back byte for byte
/// from `parse` then `assemble` (see `parse_then_assemble`).
pub proof fn append_note_assembles(
    bs: Seq<(Option<Seq<char>>, Seq<char>)>,
    ts: Seq<char>,
    actor: Option<Seq<char>>,
    note: Seq<char>,
)
    requires
        blocks_ok(bs),
        one_line(ts),
        trim_seq(ts) == ts,
        match kept_actor(actor) {
            Some(a) => ts.len() > 0 && one_line(a),
            None => true,
        },
        note.len() > 0,
        trim_end_seq(note) == note,
        no_marker(note),
    ensures
        blocks_ok(bs.push((Some(note_head_spec(ts, actor)), note))),
        append_note_spec(assemble_from(bs, false), ts, actor, note) == assemble_from(
            bs.push((Some(note_head_spec(ts, actor)), note)),
            false,
        ),
{
    let h = note_head_spec(ts, actor);
    let c = (Some(h), note);
    lemma_trimmed_ends(ts);
    match kept_actor(actor) {
        None => {
            assert(h == ts);
        },
        Some(a) => {
            assert(h == ts + seq![' ', '['] + a + seq![']']);
            assert forall|j: int| 0 <= j < h.len() implies h[j] != '\n' by {
                if j < ts.len() {
                    assert(h[j] == ts[j]);
                } else if ts.len() + 2 <= j < h.len() - 1 {
                    assert(h[j] == a[j - ts.len() - 2]);
                }
            }
            assert(h[0] == ts[0]);
            lemma_trim_id(h);
        },
    }
    assert(comment_ok(c));
    let nb = bs.push(c);
    assert forall|k: int| 1 <= k < nb.len() implies comment_ok(#[trigger] nb[k]) by {
        if k < bs.len() {
            assert(nb[k] == bs[k]);
        }
    }
    assert(nb[0] == bs[0]);
    let desc = bs[0].1;
    let cs = bs.drop_first();
    assert forall|k: int| 0 <= k < cs.len() implies comment_ok(#[trigger] cs[k]) by {
        assert(cs[k] == bs[k + 1]);
    }
    let body = assemble_from(bs, false);
    assert(body == desc + assemble_from(cs, desc.len() > 0));
    lemma_comments_end(cs, desc.len() > 0);
    lemma_trim_end_last(desc);
    assert(wrote_after(bs, false) == wrote_after(cs, desc.len() > 0));
    if body.len() > 0 {
        if cs.len() > 0 {
            assert(body.last() == assemble_from(cs, desc.len() > 0).last());
        } else {
            assert(body =~= desc);
        }
        assert(!is_ws(body.last()));
    }
    assert(trim_end_seq(body) == body);
    assert(wrote_after(bs, false) == (body.len() > 0));
    lemma_assemble_push(bs, false, c);
    let one = seq![c];
    assert(one[0] == c);
    assert(one.drop_first() =~= Seq::<(Option<Seq<char>>, Seq<char>)>::empty());
    assert(assemble_from(one.drop_first(), true) == Seq::<char>::empty());
    assert(assemble_from(seq![c], body.len() > 0) =~= (if body.len() > 0 {
        seq!['\n', '\n']
    } else {
        seq![]
    }) + rule() + seq!['\n', mark(), ' '] + h + seq!['\n'] + note);
    assert(append_note_spec(body, ts, actor, note) =~= assemble_from(nb, false));
}

} // verus!
