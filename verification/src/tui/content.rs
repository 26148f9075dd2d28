//! Split a task `body` into its description + comment blocks and stitch them
//! back together, in the on-disk shape that `store::append_note` writes:
//! a description, then for each comment a `---` line, a `▸ <timestamp>` line,
//! and the comment text.
//!
//! A comment boundary is only a line that is exactly `---` (trailing white
//! space aside) immediately followed by a line whose first non-blank char is
//! `▸`, so a bare `---` rule inside prose stays part of the description.

use vstd::prelude::*;
use crate::text::{
    chars_of, string_of, slice, trim_end, trim_start, trim, split_char, join, copy_chars,
    push_all, push_str, trim_end_seq, trim_start_seq, trim_seq, split_seq, join_seq,
};

verus! {

/// Marker glyph that opens a comment's timestamp line (`▸`).
pub open spec fn mark() -> char {
    '\u{25b8}'
}

pub open spec fn rule() -> Seq<char> {
    seq!['-', '-', '-']
}

#[derive(Debug, Clone, PartialEq, Eq)]
pub enum BlockKind {
    Description,
    Comment { timestamp: String },
}

/// One content block: its kind plus the body text (no separator/marker lines).
#[derive(Debug, Clone, PartialEq, Eq)]
pub struct Block {
    pub kind: BlockKind,
    pub text: String,
}

/// A block as (timestamp for a comment / `None` for the description, text).
pub open spec fn block_view(b: Block) -> (Option<Seq<char>>, Seq<char>) {
    match b.kind {
        BlockKind::Description => (None, b.text@),
        BlockKind::Comment { timestamp } => (Some(timestamp@), b.text@),
    }
}

pub open spec fn blocks_view(bs: Seq<Block>) -> Seq<(Option<Seq<char>>, Seq<char>)> {
    bs.map_values(|b: Block| block_view(b))
}

/// Line `j` opens a comment: `---` followed by a line starting (after blanks)
/// with `▸`.
pub open spec fn is_marker(ls: Seq<Seq<char>>, j: int) -> bool {
    &&& 0 <= j
    &&& j + 1 < ls.len()
    &&& trim_end_seq(ls[j]) == rule()
    &&& trim_start_seq(ls[j + 1]).len() > 0
    &&& trim_start_seq(ls[j + 1])[0] == mark()
}

/// The first marker line at or after `j`, or the line count.
pub open spec fn next_marker(ls: Seq<Seq<char>>, j: int) -> int
    decreases ls.len() - j,
{
    if j < 0 || j >= ls.len() {
        ls.len() as int
    } else if is_marker(ls, j) {
        j
    } else {
        next_marker(ls, j + 1)
    }
}

/// `s` with every leading `▸` removed.
pub open spec fn strip_marks(s: Seq<char>) -> Seq<char>
    decreases s.len(),
{
    if s.len() > 0 && s[0] == mark() {
        strip_marks(s.drop_first())
    } else {
        s
    }
}

/// The timestamp a marker line carries.
pub open spec fn marker_ts(line: Seq<char>) -> Seq<char> {
    trim_seq(strip_marks(trim_start_seq(line)))
}

/// Lines `a..b` joined back with `\n`, trailing white space removed.
pub open spec fn joined(ls: Seq<Seq<char>>, a: int, b: int) -> Seq<char> {
    trim_end_seq(join_seq(ls.subrange(a, b), seq!['\n']))
}

/// The comment blocks starting at the marker line `j`.
pub open spec fn comments_from(ls: Seq<Seq<char>>, j: int) -> Seq<(Option<Seq<char>>, Seq<char>)>
    decreases ls.len() - j,
{
    if j < 0 || j + 1 >= ls.len() {
        seq![]
    } else {
        let k = next_marker(ls, j + 2);
        if k <= j || k > ls.len() {
            seq![]
        } else {
            seq![(Some(marker_ts(ls[j + 1])), joined(ls, j + 2, k))] + comments_from(ls, k)
        }
    }
}

/// The blocks of a body: the description (everything before the first
/// marker), then one comment per marker.
pub open spec fn parse_spec(body: Seq<char>) -> Seq<(Option<Seq<char>>, Seq<char>)> {
    let ls = split_seq(body, '\n');
    let j = next_marker(ls, 0);
    seq![(None, joined(ls, 0, j))] + comments_from(ls, j)
}

proof fn lemma_next_marker(ls: Seq<Seq<char>>, j: int)
    requires
        0 <= j <= ls.len(),
    ensures
        j <= next_marker(ls, j) <= ls.len(),
        next_marker(ls, j) < ls.len() ==> is_marker(ls, next_marker(ls, j)),
        forall|m: int| j <= m < next_marker(ls, j) ==> !is_marker(ls, m),
    decreases ls.len() - j,
{
    if j < ls.len() && !is_marker(ls, j) {
        lemma_next_marker(ls, j + 1);
    }
}

fn marker_at(ls: &Vec<Vec<char>>, j: usize) -> (b: bool)
    ensures
        b == is_marker(ls@.map_values(|p: Vec<char>| p@), j as int),
{
    let ghost v = ls@.map_values(|p: Vec<char>| p@);
    if j >= ls.len() || j + 1 >= ls.len() {
        return false;
    }
    let a = trim_end(&ls[j]);
    let is_rule = a.len() == 3 && a[0] == '-' && a[1] == '-' && a[2] == '-';
    assert(is_rule == (a@ == rule())) by {
        if a.len() == 3 && a@ == rule() {
            assert(a@[0] == '-' && a@[1] == '-' && a@[2] == '-');
        }
        if is_rule {
            assert(a@ =~= rule());
        }
    }
    if !is_rule {
        return false;
    }
    let b = trim_start(&ls[j + 1]);
    b.len() > 0 && b[0] == '\u{25b8}'
}

fn next_marker_exec(ls: &Vec<Vec<char>>, j: usize) -> (k: usize)
    requires
        j <= ls.len(),
    ensures
        k == next_marker(ls@.map_values(|p: Vec<char>| p@), j as int),
{
    let ghost v = ls@.map_values(|p: Vec<char>| p@);
    let mut k = j;
    while k < ls.len() && !marker_at(ls, k)
        invariant
            j <= k <= ls.len(),
            v == ls@.map_values(|p: Vec<char>| p@),
            next_marker(v, j as int) == next_marker(v, k as int),
        decreases ls.len() - k,
    {
        k += 1;
    }
    k
}

fn joined_exec(ls: &Vec<Vec<char>>, a: usize, b: usize) -> (r: String)
    requires
        a <= b <= ls.len(),
    ensures
        r@ == joined(ls@.map_values(|p: Vec<char>| p@), a as int, b as int),
{
    let mut part: Vec<Vec<char>> = Vec::new();
    let mut i = a;
    while i < b
        invariant
            a <= i <= b <= ls.len(),
            part@.map_values(|p: Vec<char>| p@) == ls@.map_values(|p: Vec<char>| p@).subrange(
                a as int,
                i as int,
            ),
        decreases b - i,
    {
        let ghost before = part@;
        part.push(copy_chars(&ls[i]));
        proof {
            let v = ls@.map_values(|p: Vec<char>| p@);
            assert(part@.map_values(|p: Vec<char>| p@) =~= before.map_values(|p: Vec<char>| p@).push(v[i as int]));
            assert(v.subrange(a as int, i + 1) =~= v.subrange(a as int, i as int).push(v[i as int]));
        }
        i += 1;
    }
    let mut nl: Vec<char> = Vec::new();
    nl.push('\n');
    assert(nl@ =~= seq!['\n']);
    let j = join(&part, &nl);
    let t = trim_end(&j);
    string_of(&t)
}

fn strip_marks_exec(v: &[char]) -> (r: Vec<char>)
    ensures
        r@ == strip_marks(v@),
{
    let mut i: usize = 0;
    assert(v@.skip(0) == v@);
    while i < v.len() && v[i] == '\u{25b8}'
        invariant
            i <= v.len(),
            strip_marks(v@) == strip_marks(v@.skip(i as int)),
        decreases v.len() - i,
    {
        assert(v@.skip(i as int).drop_first() == v@.skip(i + 1));
        i += 1;
    }
    slice(v, i, v.len())
}

/// Parse a body into `[Description, Comment*]`. Always returns a
/// `Description` block first (its text possibly empty), then one `Comment`
/// per marker.
pub fn parse(body: &str) -> (blocks: Vec<Block>)
    ensures
        blocks_view(blocks@) == parse_spec(body@),
{
    let chars = chars_of(body);
    let lines = split_char(&chars, '\n');
    let ghost ls = lines@.map_values(|p: Vec<char>| p@);
    let mut blocks: Vec<Block> = Vec::new();
    let mut j = next_marker_exec(&lines, 0);
    proof {
        lemma_next_marker(ls, 0);
    }
    blocks.push(Block { kind: BlockKind::Description, text: joined_exec(&lines, 0, j) });
    assert(blocks_view(blocks@) =~= seq![(None::<Seq<char>>, joined(ls, 0, j as int))]);
    while j < lines.len()
        invariant
            ls == lines@.map_values(|p: Vec<char>| p@),
            j <= lines.len(),
            j < lines.len() ==> is_marker(ls, j as int),
            blocks_view(blocks@) + comments_from(ls, j as int) == parse_spec(body@),
        decreases lines.len() - j,
    {
        let t1 = trim_start(&lines[j + 1]);
        let t2 = strip_marks_exec(&t1);
        let ts = trim(&t2);
        let k = next_marker_exec(&lines, j + 2);
        proof {
            lemma_next_marker(ls, j + 2);
        }
        let text = joined_exec(&lines, j + 2, k);
        let ghost before = blocks@;
        blocks.push(Block { kind: BlockKind::Comment { timestamp: string_of(&ts) }, text });
        proof {
            assert(blocks_view(blocks@) =~= blocks_view(before).push(
                (Some(marker_ts(ls[j + 1])), joined(ls, j + 2, k as int)),
            ));
            assert(comments_from(ls, j as int) == seq![(Some(marker_ts(ls[j + 1])), joined(ls, j + 2, k as int))] + comments_from(ls, k as int));
        }
        j = k;
    }
    proof {
        assert(comments_from(ls, j as int) == Seq::<(Option<Seq<char>>, Seq<char>)>::empty());
    }
    blocks
}

/// The body `assemble` writes for `blocks`, given whether anything has been
/// written before them.
pub open spec fn assemble_from(bs: Seq<(Option<Seq<char>>, Seq<char>)>, wrote: bool) -> Seq<char>
    decreases bs.len(),
{
    if bs.len() == 0 {
        seq![]
    } else {
        let (kind, raw) = bs[0];
        let text = trim_end_seq(raw);
        match kind {
            None => text + assemble_from(bs.drop_first(), text.len() > 0),
            Some(ts) => if text.len() == 0 {
                assemble_from(bs.drop_first(), wrote)
            } else {
                (if wrote {
                    seq!['\n', '\n']
                } else {
                    seq![]
                }) + rule() + seq!['\n', mark(), ' '] + ts + seq!['\n'] + text + assemble_from(
                    bs.drop_first(),
                    true,
                )
            },
        }
    }
}

/// Reassemble blocks into a body in `append_note`'s shape. Comments whose
/// text is empty (white space only) are dropped.
pub fn assemble(blocks: &Vec<Block>) -> (out: String)
    ensures
        out@ == assemble_from(blocks_view(blocks@), false),
{
    let ghost bv = blocks_view(blocks@);
    let mut out: Vec<char> = Vec::new();
    let mut wrote = false;
    let mut i: usize = 0;
    assert(bv.skip(0) == bv);
    while i < blocks.len()
        invariant
            i <= blocks.len(),
            bv == blocks_view(blocks@),
            out@ + assemble_from(bv.skip(i as int), wrote) == assemble_from(bv, false),
        decreases blocks.len() - i,
    {
        let b = &blocks[i];
        let raw = chars_of(b.text.as_str());
        let text = trim_end(&raw);
        let ghost before = out@;
        let ghost w0 = wrote;
        proof {
            assert(bv.skip(i as int)[0] == block_view(blocks@[i as int]));
            assert(bv.skip(i as int).drop_first() == bv.skip(i + 1));
        }
        match &b.kind {
            BlockKind::Description => {
                push_all(&mut out, &text);
                wrote = text.len() > 0;
                proof {
                    assert(out@ + assemble_from(bv.skip(i + 1), wrote) == before + (text@
                        + assemble_from(bv.skip(i + 1), wrote)));
                }
            },
            BlockKind::Comment { timestamp } => {
                if text.len() > 0 {
                    if wrote {
                        out.push('\n');
                        out.push('\n');
                    }
                    let ghost sep = out@.skip(before.len() as int);
                    out.push('-');
                    out.push('-');
                    out.push('-');
                    out.push('\n');
                    out.push('\u{25b8}');
                    out.push(' ');
                    push_str(&mut out, timestamp.as_str());
                    out.push('\n');
                    push_all(&mut out, &text);
                    proof {
                        let head = (if w0 {
                            seq!['\n', '\n']
                        } else {
                            seq![]
                        }) + rule() + seq!['\n', mark(), ' '] + timestamp@ + seq!['\n'] + text@;
                        assert(out@ =~= before + head);
                        assert(out@ + assemble_from(bv.skip(i + 1), true) == before + (head
                            + assemble_from(bv.skip(i + 1), true)));
                    }
                    wrote = true;
                }
            },
        }
        i += 1;
    }
    assert(out@ + Seq::<char>::empty() == out@);
    string_of(&out)
}

} // verus!
