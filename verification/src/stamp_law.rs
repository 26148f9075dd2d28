//! What `read_stamp` reads back of `stamp`.

use vstd::prelude::*;
use crate::text::{
    is_ws, trim_seq, trim_start_seq, trim_end_seq, lines_seq, split_seq, strip_cr, join_seq,
    first_from, occurs_at, starts_with, lemma_first_from, lemma_split_none, lemma_split_cat,
    lemma_split_nonempty, lemma_join_push, lemma_join_split, lemma_lines_cat, lemma_lines_one,
};
use crate::skills::{
    low_digits, digest_spec, stamp_spec, stamp_block_spec, StampScan, scan_step, scan_fold,
    read_stamp_spec, stamp_value, strip_quotes_front, strip_quotes_back,
};
use crate::store::layout::hex_digit_spec;

verus! {

/// A char that a stamp value may begin or end with and that stays on its
/// line: not a quote, not a line break, not white space.
pub open spec fn plain_char(c: char) -> bool {
    c != '"' && c != '\n' && !is_ws(c)
}

proof fn lemma_hex_plain(d: int)
    requires
        0 <= d < 16,
    ensures
        plain_char(hex_digit_spec(d)),
{
    let c = hex_digit_spec(d);
    if d < 10 {
        assert(48 <= c as u32 <= 57);
    } else {
        assert(97 <= c as u32 <= 102);
    }
}

proof fn lemma_low_digits_plain(h: int, n: nat)
    ensures
        low_digits(h, n).len() == n,
        forall|j: int| 0 <= j < n ==> plain_char(#[trigger] low_digits(h, n)[j]),
    decreases n,
{
    if n > 0 {
        lemma_low_digits_plain(h / 16, (n - 1) as nat);
        lemma_hex_plain(h % 16);
        let s = low_digits(h, n);
        assert forall|j: int| 0 <= j < n implies plain_char(#[trigger] s[j]) by {
            if j > 0 {
                assert(s[j] == low_digits(h / 16, (n - 1) as nat)[j - 1]);
            }
        }
    }
}

/// A digest is 16 plain chars.
proof fn lemma_digest_plain(s: Seq<char>)
    ensures
        digest_spec(s).len() == 16,
        forall|j: int| 0 <= j < 16 ==> plain_char(#[trigger] digest_spec(s)[j]),
{
    let l = low_digits(crate::skills::fnv(vstd::utf8::encode_utf8(s)) as int, 16);
    lemma_low_digits_plain(crate::skills::fnv(vstd::utf8::encode_utf8(s)) as int, 16);
    assert forall|j: int| 0 <= j < 16 implies plain_char(#[trigger] digest_spec(s)[j]) by {
        assert(digest_spec(s)[j] == l[15 - j]);
    }
}

/// A line that ends in a carriage return, which line splitting drops.
pub open spec fn ends_in_cr(l: Seq<char>) -> bool {
    l.len() > 0 && l.last() == '\r'
}

proof fn lemma_join_cat(xs: Seq<Seq<char>>, ys: Seq<Seq<char>>)
    requires
        xs.len() > 0,
        ys.len() > 0,
    ensures
        join_seq(xs + ys, seq!['\n']) == join_seq(xs, seq!['\n']) + seq!['\n'] + join_seq(
            ys,
            seq!['\n'],
        ),
    decreases xs.len(),
{
    if xs.len() == 1 {
        assert((xs + ys).drop_first() =~= ys);
        assert((xs + ys)[0] == xs[0]);
    } else {
        lemma_join_cat(xs.drop_first(), ys);
        assert((xs + ys).drop_first() =~= xs.drop_first() + ys);
        assert((xs + ys)[0] == xs[0]);
        assert(join_seq(xs + ys, seq!['\n']) =~= join_seq(xs, seq!['\n']) + seq!['\n'] + join_seq(
            ys,
            seq!['\n'],
        ));
    }
}

pub proof fn lemma_split_no_break(s: Seq<char>)
    ensures
        forall|k: int, j: int|
            0 <= k < split_seq(s, '\n').len() && 0 <= j < split_seq(s, '\n')[k].len()
                ==> split_seq(s, '\n')[k][j] != '\n',
    decreases s.len(),
{
    lemma_first_from(s, seq!['\n'], 0);
    let p = split_seq(s, '\n');
    match first_from(s, seq!['\n'], 0) {
        None => {
            assert forall|j: int| 0 <= j < s.len() implies s[j] != '\n' by {
                if s[j] == '\n' {
                    assert(s.subrange(j, j + 1) =~= seq!['\n']);
                    assert(occurs_at(s, seq!['\n'], j));
                }
            }
            lemma_split_none(s, '\n');
        },
        Some(i) => {
            let r = s.skip(i + 1);
            lemma_split_no_break(r);
            assert(p == seq![s.take(i)] + split_seq(r, '\n'));
            assert forall|k: int, j: int|
                0 <= k < p.len() && 0 <= j < p[k].len() implies p[k][j] != '\n' by {
                if k == 0 {
                    if s[j] == '\n' {
                        assert(s.subrange(j, j + 1) =~= seq!['\n']);
                        assert(occurs_at(s, seq!['\n'], j));
                    }
                } else {
                    assert(p[k] == split_seq(r, '\n')[k - 1]);
                }
            }
        },
    }
}


/// Joining a text's lines and giving back a final line break it had
/// restores the text, when no line ends in a carriage return.
proof fn lemma_join_lines(b: Seq<char>)
    requires
        forall|k: int| 0 <= k < split_seq(b, '\n').len() ==> !ends_in_cr(
            #[trigger] split_seq(b, '\n')[k],
        ),
    ensures
        join_seq(lines_seq(b), seq!['\n']) + (if b.len() > 0 && b.last() == '\n' {
            seq!['\n']
        } else {
            seq![]
        }) == b,
{
    let ps = split_seq(b, '\n');
    lemma_split_nonempty(b);
    lemma_join_split(b);
    lemma_split_no_break(b);
    assert forall|k: int| 0 <= k < ps.len() implies strip_cr(#[trigger] ps[k]) == ps[k] by {
        assert(!ends_in_cr(ps[k]));
    }
    assert(ps.map_values(|l: Seq<char>| strip_cr(l)) =~= ps);
    assert(ps.drop_last().map_values(|l: Seq<char>| strip_cr(l)) =~= ps.drop_last());
    if ps.last().len() == 0 {
        assert(lines_seq(b) == ps.drop_last());
        if ps.len() == 1 {
            assert(b == ps[0]);
            assert(join_seq(ps.drop_last(), seq!['\n']) == Seq::<char>::empty());
            assert(Seq::<char>::empty() + Seq::<char>::empty() =~= b);
        } else {
            assert(ps =~= ps.drop_last().push(ps.last()));
            lemma_join_push(ps.drop_last(), ps.last());
            let j = join_seq(ps.drop_last(), seq!['\n']);
            assert(b =~= j + seq!['\n']);
        }
    } else {
        assert(lines_seq(b) == ps);
        let l = ps.last();
        if ps.len() == 1 {
            assert(b == ps[0]);
        } else {
            assert(ps =~= ps.drop_last().push(l));
            lemma_join_push(ps.drop_last(), l);
        }
        assert(b.last() == l.last());
        assert(l.last() != '\n');
        assert(join_seq(ps, seq!['\n']) + Seq::<char>::empty() =~= b);
    }
}

// ---------------------------------------------------------------------------
// the reader over the stamped lines
// ---------------------------------------------------------------------------

proof fn lemma_fold_next(ls: Seq<Seq<char>>, k: int)
    requires
        0 <= k < ls.len(),
    ensures
        scan_fold(ls.take(k + 1)) == scan_step(scan_fold(ls.take(k)), ls[k]),
{
    assert(ls.take(k + 1).drop_last() =~= ls.take(k));
    assert(ls.take(k + 1).last() == ls[k]);
}

/// A frontmatter line the reader keeps as it is: not a fence, not a
/// `metadata:` line.
pub open spec fn plain_front_line(l: Seq<char>) -> bool {
    trim_seq(l) != "---"@ && trim_seq(l) != "metadata:"@
}

/// Through the opening fence and plain frontmatter lines, the reader keeps
/// every line and has found nothing.
proof fn lemma_fold_front(ls: Seq<Seq<char>>, e: int, k: int)
    requires
        0 < e <= ls.len(),
        trim_seq(ls[0]) == "---"@,
        forall|m: int| 1 <= m < e ==> plain_front_line(#[trigger] ls[m]),
        1 <= k <= e,
    ensures
        scan_fold(ls.take(k)) == (StampScan {
            version: None,
            dig: None,
            kept: ls.take(k),
            fence: 1,
            in_block: false,
        }),
    decreases k,
{
    lemma_fold_next(ls, k - 1);
    if k == 1 {
        assert(ls.take(0) =~= Seq::<Seq<char>>::empty());
        assert(seq![ls[0]] =~= ls.take(1));
    } else {
        lemma_fold_front(ls, e, k - 1);
        assert(plain_front_line(ls[k - 1]));
        assert(ls.take(k - 1).push(ls[k - 1]) =~= ls.take(k));
    }
}

/// Past the closing fence the reader keeps every line and finds nothing more.
proof fn lemma_fold_after(ls: Seq<Seq<char>>, s0: int, k: int)
    requires
        0 <= s0 <= k <= ls.len(),
        scan_fold(ls.take(s0)).fence >= 2,
    ensures
        scan_fold(ls.take(k)).version == scan_fold(ls.take(s0)).version,
        scan_fold(ls.take(k)).dig == scan_fold(ls.take(s0)).dig,
        scan_fold(ls.take(k)).kept == scan_fold(ls.take(s0)).kept + ls.subrange(s0, k),
        scan_fold(ls.take(k)).fence >= 2,
    decreases k - s0,
{
    if k == s0 {
        assert(scan_fold(ls.take(s0)).kept + ls.subrange(s0, k) =~= scan_fold(ls.take(s0)).kept);
    } else {
        lemma_fold_after(ls, s0, k - 1);
        lemma_fold_next(ls, k - 1);
        assert(scan_fold(ls.take(s0)).kept + ls.subrange(s0, k) =~= (scan_fold(ls.take(s0)).kept
            + ls.subrange(s0, k - 1)).push(ls[k - 1]));
    }
}

// ---------------------------------------------------------------------------
// the law
// ---------------------------------------------------------------------------

/// What a stamp reads back from: a frontmatter opened by `---\n` and closed
/// by a line that is `---` once trimmed, none of whose lines is itself such
/// a fence or a `metadata:` line; no line of the text ending in a carriage
/// return; and a one-line version that neither begins nor ends with `"`.
pub open spec fn stamp_reads_back(content: Seq<char>, version: Seq<char>) -> bool {
    let rest = content.skip(4);
    &&& starts_with(content, "---\n"@)
    &&& match first_from(rest, "\n---"@, 0) {
        Some(i) => (forall|k: int|
            0 <= k < split_seq(rest.take(i), '\n').len() ==> plain_front_line(
                #[trigger] split_seq(rest.take(i), '\n')[k],
            )) && trim_seq(split_seq(rest.skip(i + 1), '\n')[0]) == "---"@,
        None => false,
    }
    &&& forall|k: int|
        0 <= k < split_seq(content, '\n').len() ==> !ends_in_cr(
            #[trigger] split_seq(content, '\n')[k],
        )
    &&& forall|j: int| 0 <= j < version.len() ==> version[j] != '\n'
    &&& version.len() > 0 ==> version[0] != '"' && version.last() != '"'
}

proof fn lemma_trim_plain(x: Seq<char>)
    requires
        x.len() > 0,
        !is_ws(x[0]),
        !is_ws(x.last()),
    ensures
        trim_seq(x) == x,
        trim_seq(seq![' '] + x) == x,
        trim_seq(seq![' ', ' '] + x) == x,
{
    assert(is_ws(' '));
    assert((seq![' '] + x).drop_first() =~= x);
    assert((seq![' ', ' '] + x).drop_first() =~= seq![' '] + x);
    assert(trim_start_seq(x) == x);
    assert(trim_end_seq(x) == x);
}

/// A quoted stamp value reads back as the value.
proof fn lemma_unquote(v: Seq<char>)
    requires
        v.len() > 0 ==> v[0] != '"' && v.last() != '"',
        forall|j: int| 0 <= j < v.len() ==> v[j] != '\n',
    ensures
        stamp_value(seq![' ', '"'] + v + seq!['"']) == v,
{
    let q = seq!['"'] + v + seq!['"'];
    assert(!is_ws('"'));
    assert(seq![' ', '"'] + v + seq!['"'] =~= seq![' '] + q);
    lemma_trim_plain(q);
    assert(q.drop_first() =~= v + seq!['"']);
    let w = v + seq!['"'];
    assert(strip_quotes_front(q) == strip_quotes_front(w));
    if v.len() == 0 {
        assert(w =~= seq!['"']);
        assert(w.drop_first() =~= Seq::<char>::empty());
        assert(strip_quotes_front(w) == strip_quotes_front(w.drop_first()));
        assert(strip_quotes_front(q) == Seq::<char>::empty());
    } else {
        assert(w[0] == v[0]);
        assert(strip_quotes_front(q) == w);
        assert(w.drop_last() =~= v);
        assert(strip_quotes_back(w) == strip_quotes_back(v));
    }
}

/// The fence line.
pub open spec fn fence_line() -> Seq<char> {
    seq!['-', '-', '-']
}

/// The stamp's version line, trimmed.
pub open spec fn version_entry(v: Seq<char>) -> Seq<char> {
    "yaks-version:"@ + seq![' ', '"'] + v + seq!['"']
}

/// The stamp's digest line, trimmed.
pub open spec fn digest_entry(d: Seq<char>) -> Seq<char> {
    "yaks-digest:"@ + seq![' ', '"'] + d + seq!['"']
}

/// Where the frontmatter closes: the position of the first `\n---` after the
/// opening fence.
pub open spec fn close_at(content: Seq<char>) -> int {
    match first_from(content.skip(4), "\n---"@, 0) {
        Some(i) => i,
        None => 0,
    }
}

pub open spec fn front_text(content: Seq<char>) -> Seq<char> {
    content.skip(4).take(close_at(content))
}

pub open spec fn after_front(content: Seq<char>) -> Seq<char> {
    content.skip(4).skip(close_at(content) + 1)
}

/// The lines of the stamped text.
pub open spec fn stamped_lines(content: Seq<char>, v: Seq<char>) -> Seq<Seq<char>> {
    seq![fence_line()] + split_seq(front_text(content), '\n') + seq![
        "metadata:"@,
        seq![' ', ' '] + version_entry(v),
        seq![' ', ' '] + digest_entry(digest_spec(content)),
    ] + lines_seq(after_front(content))
}

proof fn lemma_stamp_text(content: Seq<char>, v: Seq<char>)
    requires
        stamp_reads_back(content, v),
    ensures
        content == fence_line() + seq!['\n'] + (front_text(content) + seq!['\n'] + after_front(
            content,
        )),
        after_front(content).len() >= 3,
        stamp_spec(content, v) == fence_line() + seq!['\n'] + (front_text(content) + seq!['\n']
            + ("metadata:"@ + seq!['\n'] + (seq![' ', ' '] + version_entry(v) + seq!['\n'] + (
        seq![' ', ' '] + digest_entry(digest_spec(content)) + seq!['\n'] + after_front(content))))),
{
    reveal_strlit("---\n");
    reveal_strlit("\n---");
    reveal_strlit("\n");
    reveal_strlit("metadata:");
    reveal_strlit("yaks-version:");
    reveal_strlit("yaks-digest:");
    reveal_strlit("metadata:\n  yaks-version: \"");
    reveal_strlit("\"\n  yaks-digest: \"");
    reveal_strlit("\"");
    let rest = content.skip(4);
    lemma_first_from(rest, "\n---"@, 0);
    let i = close_at(content);
    let a = front_text(content);
    let b = after_front(content);
    assert(rest.subrange(i, i + 4) == "\n---"@);
    assert(rest[i] == rest.subrange(i, i + 4)[0]);
    assert(rest =~= a + seq!['\n'] + b);
    assert(content.subrange(0, 4) == "---\n"@);
    assert(content =~= content.subrange(0, 4) + rest);
    assert(content =~= fence_line() + seq!['\n'] + (a + seq!['\n'] + b));
    let v2 = seq![' ', ' '] + version_entry(v);
    let d2 = seq![' ', ' '] + digest_entry(digest_spec(content));
    assert(stamp_block_spec(v, digest_spec(content)) =~= "metadata:"@ + seq!['\n'] + v2 + seq!['\n']
        + d2);
    assert(rest.take(i + 1) =~= a + seq!['\n']);
    assert(rest.skip(i + 1) == b);
}

proof fn lemma_stamp_lines(content: Seq<char>, v: Seq<char>)
    requires
        stamp_reads_back(content, v),
    ensures
        lines_seq(stamp_spec(content, v)) == stamped_lines(content, v),
        split_seq(content, '\n') == seq![fence_line()] + split_seq(front_text(content), '\n')
            + split_seq(after_front(content), '\n'),
{
    reveal_strlit("metadata:");
    reveal_strlit("yaks-version:");
    reveal_strlit("yaks-digest:");
    lemma_stamp_text(content, v);
    lemma_digest_plain(content);
    let a = front_text(content);
    let b = after_front(content);
    let d = digest_spec(content);
    let fence = fence_line();
    let meta = "metadata:"@;
    let vline = seq![' ', ' '] + version_entry(v);
    let dline = seq![' ', ' '] + digest_entry(d);
    assert(forall|j: int| 0 <= j < fence.len() ==> fence[j] != '\n');
    lemma_split_cat(fence, a + seq!['\n'] + b);
    lemma_split_none(fence, '\n');
    lemma_split_cat(a, b);
    let sa = split_seq(a, '\n');
    let sc = split_seq(content, '\n');
    assert(sc =~= seq![fence] + sa + split_seq(b, '\n'));
    assert forall|k: int| 0 <= k < sa.len() implies !ends_in_cr(#[trigger] sa[k]) by {
        assert(sc[k + 1] == sa[k]);
    }
    let r4 = dline + seq!['\n'] + b;
    let r3 = vline + seq!['\n'] + r4;
    let r2 = meta + seq!['\n'] + r3;
    let r1 = a + seq!['\n'] + r2;
    assert(forall|j: int| 0 <= j < meta.len() ==> meta[j] != '\n');
    assert forall|j: int| 0 <= j < vline.len() implies vline[j] != '\n' by {
        if 17 <= j < vline.len() - 1 {
            assert(vline[j] == v[j - 17]);
        }
    }
    assert forall|j: int| 0 <= j < dline.len() implies dline[j] != '\n' by {
        if 16 <= j < dline.len() - 1 {
            assert(dline[j] == d[j - 16]);
            assert(plain_char(d[j - 16]));
        }
    }
    lemma_lines_one(fence, r1);
    lemma_lines_cat(a, r2);
    lemma_lines_one(meta, r3);
    lemma_lines_one(vline, r4);
    lemma_lines_one(dline, b);
    assert forall|k: int| 0 <= k < sa.len() implies strip_cr(#[trigger] sa[k]) == sa[k] by {
        assert(!ends_in_cr(sa[k]));
    }
    assert(sa.map_values(|l: Seq<char>| strip_cr(l)) =~= sa);
    assert(lines_seq(stamp_spec(content, v)) =~= stamped_lines(content, v));
}

/// The reader over the stamped lines finds the version and the digest and
/// keeps every line but the stamp's three.
proof fn lemma_stamp_scan(content: Seq<char>, v: Seq<char>)
    requires
        stamp_reads_back(content, v),
    ensures
        scan_fold(stamped_lines(content, v)).version == Some(v),
        scan_fold(stamped_lines(content, v)).dig == Some(digest_spec(content)),
        scan_fold(stamped_lines(content, v)).kept == seq![fence_line()] + split_seq(
            front_text(content),
            '\n',
        ) + lines_seq(after_front(content)),
{
    reveal_strlit("---");
    reveal_strlit("metadata:");
    reveal_strlit("yaks-version:");
    reveal_strlit("yaks-digest:");
    lemma_stamp_lines(content, v);
    lemma_digest_plain(content);
    let a = front_text(content);
    let b = after_front(content);
    let d = digest_spec(content);
    let sa = split_seq(a, '\n');
    let sb = split_seq(b, '\n');
    lemma_split_nonempty(a);
    lemma_split_nonempty(b);
    let sc = split_seq(content, '\n');
    assert(sc[1 + sa.len() as int] == sb[0]);
    assert(!ends_in_cr(sb[0]));
    let lb = lines_seq(b);
    let ls = stamped_lines(content, v);
    assert(trim_seq(sb[0]) == "---"@);
    assert(sb[0].len() > 0);
    if sb.last().len() == 0 {
        assert(sb.len() > 1);
    }
    assert(lb.len() > 0 && lb[0] == sb[0]);
    let f = sa.len() as int;
    let fence = fence_line();
    let meta = "metadata:"@;
    let vt = version_entry(v);
    let dt = digest_entry(d);
    let vkey = "yaks-version:"@;
    let dkey = "yaks-digest:"@;
    assert("---"@ =~= fence);
    lemma_trim_plain(fence);
    assert forall|m: int| 1 <= m < f + 1 implies plain_front_line(#[trigger] ls[m]) by {
        assert(ls[m] == sa[m - 1]);
    }
    lemma_fold_front(ls, f + 1, f + 1);
    assert(ls[f + 1] == meta);
    assert(ls[f + 2] == seq![' ', ' '] + vt);
    assert(ls[f + 3] == seq![' ', ' '] + dt);
    assert(ls[f + 4] == lb[0]);
    lemma_trim_plain(meta);
    lemma_fold_next(ls, f + 1);
    lemma_trim_plain(vt);
    lemma_fold_next(ls, f + 2);
    assert(vt.subrange(0, 13) =~= vkey);
    assert(vt.skip(13) =~= seq![' ', '"'] + v + seq!['"']);
    lemma_unquote(v);
    lemma_trim_plain(dt);
    lemma_fold_next(ls, f + 3);
    assert(dt.subrange(0, 13)[5] != vkey[5]);
    assert(!starts_with(dt, vkey));
    assert(dt.subrange(0, 12) =~= dkey);
    assert(dt.skip(12) =~= seq![' ', '"'] + d + seq!['"']);
    assert(d[0] != '"' && d.last() != '"') by {
        assert(plain_char(d[0]));
        assert(plain_char(d[15]));
    }
    lemma_unquote(d);
    lemma_fold_next(ls, f + 4);
    let st = scan_fold(ls.take(f + 5));
    assert(st.version == Some(v));
    assert(st.dig == Some(d));
    assert(st.kept == ls.take(f + 1).push(lb[0]));
    lemma_fold_after(ls, f + 5, ls.len() as int);
    assert(ls.take(ls.len() as int) =~= ls);
    assert(scan_fold(ls).kept =~= seq![fence] + sa + lb);
}

/// Reading the stamp back off a stamped skill gives the version it was
/// stamped at, the digest of the original, and the original byte for byte.
pub proof fn read_stamp_after_stamp(content: Seq<char>, version: Seq<char>)
    requires
        stamp_reads_back(content, version),
    ensures
        read_stamp_spec(stamp_spec(content, version)) == Some(
            (version, digest_spec(content), content),
        ),
{
    lemma_stamp_text(content, version);
    lemma_stamp_lines(content, version);
    lemma_stamp_scan(content, version);
    let a = front_text(content);
    let b = after_front(content);
    let fence = fence_line();
    let sa = split_seq(a, '\n');
    let sb = split_seq(b, '\n');
    let lb = lines_seq(b);
    let inst = stamp_spec(content, version);
    let sc = split_seq(content, '\n');
    lemma_split_nonempty(a);
    lemma_split_nonempty(b);
    assert forall|k: int| 0 <= k < sb.len() implies !ends_in_cr(#[trigger] sb[k]) by {
        assert(sc[k + 1 + sa.len()] == sb[k]);
    }
    assert(lb.len() > 0) by {
        assert(sc[1 + sa.len() as int] == sb[0]);
        assert(trim_seq(sb[0]) == "---"@);
        reveal_strlit("---");
        assert(sb[0].len() > 0);
        if sb.last().len() == 0 {
            assert(sb.len() > 1);
        }
    }
    let kept = seq![fence] + sa + lb;
    lemma_join_cat(seq![fence] + sa, lb);
    lemma_join_cat(seq![fence], sa);
    assert(join_seq(seq![fence], seq!['\n']) == fence);
    lemma_join_split(a);
    lemma_join_lines(b);
    assert(inst.last() == b.last());
    assert(join_seq(kept, seq!['\n']) + (if inst.len() > 0 && inst.last() == '\n' {
        seq!['\n']
    } else {
        seq![]
    }) =~= content);
}

/// A digest is 16 chars long.
pub proof fn lemma_digest_len(s: Seq<char>)
    ensures
        digest_spec(s).len() == 16,
{
    lemma_digest_plain(s);
}

} // verus!
