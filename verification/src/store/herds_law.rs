//! Declaring herds twice: the second time adds nothing.

use vstd::prelude::*;
use crate::text::{
    is_ws, trim_seq, trim_start_seq, trim_end_seq, first_from, occurs_at, lemma_first_from,
    starts_with, lines_seq, split_seq, join_seq, strip_cr, lemma_join_push, lemma_split_nonempty,
};
use crate::store::read::unquote_spec;
use crate::store::herds::{
    herd_entry, entries, ends_block, herds_declared, declared, declared_lines, opener_from, block_end,
    adding_ok, seed_ok, seed_member, id_herd,
};
use crate::store::write::verbatim_spec;
use crate::store::roundtrip::{clean_line, one_line, lemma_lines_verbatim};
use crate::store::config::{
    ConfigView, HerdView, ReadState, Section, herd_lookup, herd_touch, herd_set, herds_line,
    top_line, config_step, config_fold, parse_config_spec, indent_of,
};

verus! {

/// `hs` has an entry named `k`.
pub open spec fn has_herd(hs: Seq<(Seq<char>, HerdView)>, k: Seq<char>) -> bool {
    exists|j: int| 0 <= j < hs.len() && (#[trigger] hs[j]).0 == k
}

/// Every herd named in `small` is named in `big`.
pub open spec fn covers(big: Seq<(Seq<char>, HerdView)>, small: Seq<(Seq<char>, HerdView)>) -> bool {
    forall|k: Seq<char>| has_herd(small, k) ==> has_herd(big, k)
}

proof fn lemma_lookup_has(hs: Seq<(Seq<char>, HerdView)>, k: Seq<char>)
    ensures
        (herd_lookup(hs, k) is Some) == has_herd(hs, k),
    decreases hs.len(),
{
    if hs.len() > 0 {
        let d = hs.drop_last();
        lemma_lookup_has(d, k);
        if hs.last().0 == k {
            assert(hs[hs.len() - 1].0 == k);
        } else {
            if has_herd(hs, k) {
                let j = choose|j: int| 0 <= j < hs.len() && (#[trigger] hs[j]).0 == k;
                assert(j < hs.len() - 1);
                assert(d[j] == hs[j]);
            }
            if has_herd(d, k) {
                let j = choose|j: int| 0 <= j < d.len() && (#[trigger] d[j]).0 == k;
                assert(hs[j] == d[j]);
            }
        }
    }
}

proof fn lemma_set_names(hs: Seq<(Seq<char>, HerdView)>, k: Seq<char>, v: HerdView)
    ensures
        herd_set(hs, k, v).len() == hs.len(),
        forall|j: int| 0 <= j < hs.len() ==> (#[trigger] herd_set(hs, k, v)[j]).0 == hs[j].0,
    decreases hs.len(),
{
    if hs.len() > 0 {
        let d = hs.drop_last();
        lemma_set_names(d, k, v);
        let r = herd_set(hs, k, v);
        assert forall|j: int| 0 <= j < hs.len() implies (#[trigger] r[j]).0 == hs[j].0 by {
            if hs.last().0 == k {
                if j < hs.len() - 1 {
                    assert(r[j] == d[j]);
                }
            } else {
                if j < hs.len() - 1 {
                    assert(r[j] == herd_set(d, k, v)[j]);
                    assert(d[j] == hs[j]);
                }
            }
        }
    }
}

proof fn lemma_set_covers(hs: Seq<(Seq<char>, HerdView)>, k: Seq<char>, v: HerdView)
    ensures
        covers(herd_set(hs, k, v), hs),
        covers(hs, herd_set(hs, k, v)),
{
    lemma_set_names(hs, k, v);
    let r = herd_set(hs, k, v);
    assert forall|x: Seq<char>| has_herd(hs, x) implies has_herd(r, x) by {
        let j = choose|j: int| 0 <= j < hs.len() && (#[trigger] hs[j]).0 == x;
        assert(r[j].0 == x);
    }
    assert forall|x: Seq<char>| has_herd(r, x) implies has_herd(hs, x) by {
        let j = choose|j: int| 0 <= j < r.len() && (#[trigger] r[j]).0 == x;
        assert(hs[j].0 == x);
    }
}

proof fn lemma_touch(hs: Seq<(Seq<char>, HerdView)>, k: Seq<char>)
    ensures
        covers(herd_touch(hs, k), hs),
        has_herd(herd_touch(hs, k), k),
        forall|x: Seq<char>| has_herd(herd_touch(hs, k), x) ==> has_herd(hs, x) || x == k,
{
    lemma_lookup_has(hs, k);
    let r = herd_touch(hs, k);
    if herd_lookup(hs, k) is None {
        assert(r == hs.push((k, HerdView { default_type: None, default_priority: None, verify: seq![] })));
        assert(r[hs.len() as int].0 == k);
        assert forall|x: Seq<char>| has_herd(hs, x) implies has_herd(r, x) by {
            let j = choose|j: int| 0 <= j < hs.len() && (#[trigger] hs[j]).0 == x;
            assert(r[j] == hs[j]);
        }
        assert forall|x: Seq<char>| has_herd(r, x) implies has_herd(hs, x) || x == k by {
            let j = choose|j: int| 0 <= j < r.len() && (#[trigger] r[j]).0 == x;
            if j < hs.len() {
                assert(hs[j] == r[j]);
            }
        }
    }
}

/// `b` covers `a` when touching the same herd in both.
proof fn lemma_touch_mono(a: Seq<(Seq<char>, HerdView)>, b: Seq<(Seq<char>, HerdView)>, k: Seq<char>)
    requires
        covers(b, a),
    ensures
        covers(herd_touch(b, k), herd_touch(a, k)),
{
    lemma_touch(a, k);
    lemma_touch(b, k);
}

/// Two reader states that agree on everything but the herds, the second
/// naming at least the herds of the first.
pub open spec fn agree(a: ReadState, b: ReadState) -> bool {
    &&& a.sec == b.sec
    &&& a.cur == b.cur
    &&& a.herd_verify == b.herd_verify
    &&& a.c.prefix == b.c.prefix
    &&& a.c.default_type == b.c.default_type
    &&& a.c.default_priority == b.c.default_priority
    &&& a.c.vim_mode == b.c.vim_mode
    &&& a.c.verify == b.c.verify
    &&& covers(b.c.herds, a.c.herds)
}

/// A herds-block line keeps every herd and agreement.
proof fn lemma_herds_line(a: ReadState, b: ReadState, key: Seq<char>, val: Seq<char>, ind: nat)
    requires
        agree(a, b),
    ensures
        agree(herds_line(a, key, val, ind), herds_line(b, key, val, ind)),
        covers(herds_line(b, key, val, ind).c.herds, b.c.herds),
{
    if ind <= 2 {
        lemma_touch_mono(a.c.herds, b.c.herds, key);
        lemma_touch(b.c.herds, key);
    } else {
        match a.cur {
            Some(h) => {
                let ha = herd_touch(a.c.herds, h);
                let hb = herd_touch(b.c.herds, h);
                lemma_touch_mono(a.c.herds, b.c.herds, h);
                lemma_touch(b.c.herds, h);
                lemma_lookup_has(ha, h);
                lemma_lookup_has(hb, h);
                let ca = herd_lookup(ha, h)->0;
                let cb = herd_lookup(hb, h)->0;
                lemma_set_covers(ha, h, HerdView { verify: ca.verify.push((key, val)), ..ca });
                lemma_set_covers(hb, h, HerdView { verify: cb.verify.push((key, val)), ..cb });
                lemma_set_covers(ha, h, HerdView { default_type: Some(val), ..ca });
                lemma_set_covers(hb, h, HerdView { default_type: Some(val), ..cb });
                match crate::store::read::parse_u8_spec(val) {
                    Some(n) => {
                        lemma_set_covers(ha, h, HerdView { default_priority: Some(n), ..ca });
                        lemma_set_covers(hb, h, HerdView { default_priority: Some(n), ..cb });
                    },
                    None => {},
                }
            },
            None => {},
        }
    }
}

/// One config line keeps every herd and agreement.
pub proof fn lemma_step(a: ReadState, b: ReadState, line: Seq<char>)
    requires
        agree(a, b),
    ensures
        agree(config_step(a, line), config_step(b, line)),
        covers(config_step(b, line).c.herds, b.c.herds),
{
    lemma_herds_line(a, b, crate::text::trim_seq(line), seq![], 0);
    match crate::text::first_from(line, seq![':'], 0) {
        Some(c) => {
            let key = crate::text::trim_seq(line.take(c));
            let val = crate::store::read::unquote_spec(crate::text::trim_seq(line.skip(c + 1)));
            lemma_herds_line(a, b, key, val, indent_of(line));
        },
        None => {},
    }
}

/// The reader run over `ls` from the state `st`.
pub open spec fn fold_from(st: ReadState, ls: Seq<Seq<char>>) -> ReadState
    decreases ls.len(),
{
    if ls.len() == 0 {
        st
    } else {
        fold_from(config_step(st, ls[0]), ls.drop_first())
    }
}

proof fn lemma_fold_push(st: ReadState, ls: Seq<Seq<char>>, x: Seq<char>)
    ensures
        fold_from(st, ls.push(x)) == config_step(fold_from(st, ls), x),
    decreases ls.len(),
{
    if ls.len() == 0 {
        assert(ls.push(x)[0] == x);
        assert(ls.push(x).drop_first() =~= Seq::<Seq<char>>::empty());
        assert(fold_from(config_step(st, x), Seq::<Seq<char>>::empty()) == config_step(st, x));
    } else {
        assert(ls.push(x)[0] == ls[0]);
        assert(ls.push(x).drop_first() =~= ls.drop_first().push(x));
        lemma_fold_push(config_step(st, ls[0]), ls.drop_first(), x);
    }
}

/// Reading `a + b` is reading `a`, then `b` from where `a` left off.
proof fn lemma_fold_cat(a: Seq<Seq<char>>, b: Seq<Seq<char>>)
    ensures
        config_fold(a + b) == fold_from(config_fold(a), b),
    decreases b.len(),
{
    if b.len() == 0 {
        assert(a + b =~= a);
    } else {
        lemma_fold_cat(a, b.drop_last());
        assert((a + b).drop_last() =~= a + b.drop_last());
        assert((a + b).last() == b.last());
        assert(b =~= b.drop_last().push(b.last()));
        lemma_fold_push(config_fold(a), b.drop_last(), b.last());
    }
}

/// Agreement, and the herds of the second run, survive any lines.
proof fn lemma_fold_agree(a: ReadState, b: ReadState, ls: Seq<Seq<char>>)
    requires
        agree(a, b),
    ensures
        agree(fold_from(a, ls), fold_from(b, ls)),
        covers(fold_from(b, ls).c.herds, b.c.herds),
    decreases ls.len(),
{
    if ls.len() > 0 {
        lemma_step(a, b, ls[0]);
        lemma_fold_agree(config_step(a, ls[0]), config_step(b, ls[0]), ls.drop_first());
    }
}

proof fn lemma_agree_self(a: ReadState)
    ensures
        agree(a, a),
{
}

proof fn lemma_covers_trans(a: Seq<(Seq<char>, HerdView)>, b: Seq<(Seq<char>, HerdView)>, c: Seq<(Seq<char>, HerdView)>)
    requires
        covers(a, b),
        covers(b, c),
    ensures
        covers(a, c),
{
}

/// A herd name that its `  <herd>:` entry declares: no white space at its
/// ends, no `:`, no line break, and not starting a comment.
pub open spec fn entry_name_ok(h: Seq<char>) -> bool {
    &&& trim_seq(h) == h
    &&& forall|j: int| 0 <= j < h.len() ==> h[j] != ':' && h[j] != '\n'
    &&& !(h.len() > 0 && h[0] == '#')
}

/// Agreement on the configuration but the herds.
pub open spec fn agree_c(a: ReadState, b: ReadState) -> bool {
    &&& a.c.prefix == b.c.prefix
    &&& a.c.default_type == b.c.default_type
    &&& a.c.default_priority == b.c.default_priority
    &&& a.c.vim_mode == b.c.vim_mode
    &&& a.c.verify == b.c.verify
    &&& covers(b.c.herds, a.c.herds)
}

/// A line that ends a block brings two states that agree on the
/// configuration back into step.
proof fn lemma_block_end_step(a: ReadState, b: ReadState, l: Seq<char>)
    requires
        agree_c(a, b),
        ends_block(l),
    ensures
        agree(config_step(a, l), config_step(b, l)),
{
    assert(l.len() > 0) by {
        if l.len() == 0 {
            assert(trim_seq(l).len() == 0) by {
                assert(trim_start_seq(l) == l);
            }
        }
    }
    assert(indent_of(l) == 0) by {
        if l[0] == ' ' {
            assert(l.subrange(0, 1) =~= seq![' ']);
        }
        if l[0] == '\t' {
            assert(l.subrange(0, 1) =~= seq!['\t']);
        }
    }
    let t = trim_seq(l);
    assert(t.len() > 0 && t[0] != '#') by {
        if t.len() > 0 && t[0] == '#' {
            assert(t.subrange(0, 1) =~= seq!['#']);
        }
    }
}

proof fn lemma_trim_two(x: Seq<char>)
    ensures
        trim_start_seq(seq![' ', ' '] + x) == trim_start_seq(x),
{
    let sp = seq![' ', ' '] + x;
    assert(is_ws(' '));
    assert(sp[0] == ' ');
    assert(sp.drop_first() =~= seq![' '] + x);
    assert((seq![' '] + x)[0] == ' ');
    assert((seq![' '] + x).drop_first() =~= x);
    assert(trim_start_seq(sp) == trim_start_seq(sp.drop_first()));
    assert(trim_start_seq(seq![' '] + x) == trim_start_seq(x));
}

proof fn lemma_trim_entry(h: Seq<char>)
    requires
        entry_name_ok(h),
    ensures
        trim_seq(herd_entry(h)) == h + seq![':'],
        trim_seq(seq![' ', ' '] + h) == h,
        indent_of(herd_entry(h)) == 2,
{
    reveal_strlit("  ");
    reveal_strlit(":");
    let line = herd_entry(h);
    let x = h + seq![':'];
    assert(line =~= seq![' ', ' '] + x);
    crate::store::roundtrip::lemma_trimmed_ends(h);
    assert(!is_ws(':'));
    if h.len() > 0 {
        assert(x[0] == h[0]);
        assert(!is_ws(h[0]));
        assert(trim_start_seq(h) == h);
    } else {
        assert(x[0] == ':');
        assert(trim_start_seq(h) == h);
    }
    assert(trim_start_seq(x) == x);
    assert(x.last() == ':');
    assert(trim_end_seq(x) == x);
    lemma_trim_two(x);
    lemma_trim_two(h);
    assert(trim_end_seq(h) == h);
    assert(line[0] == ' ');
    assert(indent_of(line) == 1 + indent_of(line.drop_first()));
    let l1 = line.drop_first();
    assert(l1 =~= seq![' '] + x);
    assert(l1[0] == ' ');
    assert(indent_of(l1) == 1 + indent_of(l1.drop_first()));
    assert(l1.drop_first() =~= x);
    assert(indent_of(x) == 0) by {
        if h.len() > 0 {
            assert(h[0] != ' ' && h[0] != '\t') by {
                assert(!is_ws(h[0]));
            }
        }
    }
}

proof fn lemma_entry_parts(h: Seq<char>)
    requires
        entry_name_ok(h),
    ensures
        first_from(herd_entry(h), seq![':'], 0) == Some(h.len() as int + 2),
        trim_seq(herd_entry(h).take(h.len() as int + 2)) == h,
        unquote_spec(trim_seq(herd_entry(h).skip(h.len() as int + 3))) == Seq::<char>::empty(),
        trim_seq(herd_entry(h)).len() > 0,
        trim_seq(herd_entry(h))[0] != '#',
        indent_of(herd_entry(h)) == 2,
{
    reveal_strlit("  ");
    reveal_strlit(":");
    let line = herd_entry(h);
    lemma_trim_entry(h);
    let n = h.len() as int;
    assert(line =~= seq![' ', ' '] + h + seq![':']);
    assert(occurs_at(line, seq![':'], n + 2)) by {
        assert(line.subrange(n + 2, n + 3) =~= seq![':']);
    }
    assert forall|j: int| 0 <= j < n + 2 implies !occurs_at(line, seq![':'], j) by {
        if occurs_at(line, seq![':'], j) {
            assert(line.subrange(j, j + 1)[0] == line[j]);
            if j >= 2 {
                assert(line[j] == h[j - 2]);
            }
        }
    }
    lemma_first_from(line, seq![':'], 0);
    assert(line.take(n + 2) =~= seq![' ', ' '] + h);
    assert(line.skip(n + 3) =~= Seq::<char>::empty());
    assert(trim_start_seq(Seq::<char>::empty()) == Seq::<char>::empty());
    let bare = trim_seq(line);
    if n > 0 {
        assert(bare[0] == h[0]);
    } else {
        assert(bare[0] == ':');
    }
}

/// An entry line inside the herds block keeps the block open, keeps every
/// herd and the rest of the configuration, and declares its herd when the
/// name suits an entry.
proof fn lemma_entry_step(st: ReadState, h: Seq<char>)
    requires
        st.sec == Section::Herds,
    ensures
        config_step(st, herd_entry(h)).sec == Section::Herds,
        entry_name_ok(h) ==> has_herd(config_step(st, herd_entry(h)).c.herds, h),
        covers(config_step(st, herd_entry(h)).c.herds, st.c.herds),
        agree_c(st, config_step(st, herd_entry(h))),
{
    reveal_strlit("  ");
    reveal_strlit(":");
    let line = herd_entry(h);
    lemma_step(st, st, line);
    assert(line =~= seq![' ', ' '] + h + seq![':']);
    assert(line[0] == ' ');
    assert(indent_of(line) > 0);
    let n = line.len() - 1;
    assert(occurs_at(line, seq![':'], n)) by {
        assert(line.subrange(n, n + 1) =~= seq![':']);
    }
    lemma_first_from(line, seq![':'], 0);
    if entry_name_ok(h) {
        lemma_entry_parts(h);
        assert(config_step(st, line) == herds_line(st, h, Seq::<char>::empty(), 2));
        lemma_touch(st.c.herds, h);
    }
}

/// The `herds:` line opens the herds block, whatever came before.
proof fn lemma_opener_step(st: ReadState)
    ensures
        config_step(st, "herds:"@).sec == Section::Herds,
        covers(config_step(st, "herds:"@).c.herds, st.c.herds),
{
    reveal_strlit("herds:");
    reveal_strlit("herds");
    reveal_strlit("herd");
    reveal_strlit("prefix");
    reveal_strlit("default_type");
    reveal_strlit("default_priority");
    reveal_strlit("vim_mode");
    reveal_strlit("verify");
    let line = "herds:"@;
    lemma_step(st, st, line);
    assert(occurs_at(line, seq![':'], 5)) by {
        assert(line.subrange(5, 6) =~= seq![':']);
    }
    assert forall|j: int| 0 <= j < 5 implies !occurs_at(line, seq![':'], j) by {
        if occurs_at(line, seq![':'], j) {
            assert(line.subrange(j, j + 1)[0] == line[j]);
        }
    }
    lemma_first_from(line, seq![':'], 0);
    assert(first_from(line, seq![':'], 0) == Some(5int));
    let key_raw = line.take(5);
    assert(key_raw =~= "herds"@);
    crate::store::roundtrip::lemma_trim_id(key_raw);
    assert(line.skip(6) =~= Seq::<char>::empty());
    assert(trim_seq(Seq::<char>::empty()) == Seq::<char>::empty()) by {
        assert(trim_start_seq(Seq::<char>::empty()) == Seq::<char>::empty());
    }
    assert(unquote_spec(Seq::<char>::empty()) == Seq::<char>::empty()) by {
        assert(trim_start_seq(Seq::<char>::empty()) == Seq::<char>::empty());
    }
    assert(indent_of(line) == 0);
    crate::store::roundtrip::lemma_trim_id(line);
    assert(trim_seq(line) == line);
    assert(line[0] != '#');
    assert("herds"@ != "herd"@);
    assert("herds"@ != "prefix"@);
    assert("herds"@ != "default_type"@);
    assert("herds"@ != "default_priority"@);
    assert("herds"@ != "vim_mode"@);
    assert("herds"@ != "verify"@);
}

/// Entry lines inside the herds block keep it open, keep every herd and
/// the rest of the configuration, and declare the herds whose names suit
/// an entry.
proof fn lemma_entries(st: ReadState, hs: Seq<Seq<char>>)
    requires
        st.sec == Section::Herds,
    ensures
        fold_from(st, entries(hs)).sec == Section::Herds,
        covers(fold_from(st, entries(hs)).c.herds, st.c.herds),
        agree_c(st, fold_from(st, entries(hs))),
        forall|k: int| 0 <= k < hs.len() && entry_name_ok(hs[k]) ==> has_herd(fold_from(st, entries(hs)).c.herds, #[trigger] hs[k]),
    decreases hs.len(),
{
    if hs.len() > 0 {
        let es = entries(hs);
        assert(es[0] == herd_entry(hs[0]));
        assert(es.drop_first() =~= entries(hs.drop_first()));
        lemma_entry_step(st, hs[0]);
        let st1 = config_step(st, herd_entry(hs[0]));
        let rest = hs.drop_first();
        lemma_entries(st1, rest);
        let fin = fold_from(st, es);
        assert(fin == fold_from(st1, entries(rest)));
        assert forall|k: int| 0 <= k < hs.len() && entry_name_ok(hs[k]) implies has_herd(fin.c.herds, #[trigger] hs[k]) by {
            if k == 0 {
                assert(has_herd(st1.c.herds, hs[0]));
            } else {
                assert(rest[k - 1] == hs[k]);
            }
        }
    }
}

// ---------------------------------------------------------------------------
// the rewritten text's lines
// ---------------------------------------------------------------------------

proof fn lemma_join_verbatim(ls: Seq<Seq<char>>)
    requires
        ls.len() > 0,
    ensures
        join_seq(ls, seq!['\n']) + seq!['\n'] == verbatim_spec(ls),
    decreases ls.len(),
{
    let d = ls.drop_last();
    if d.len() == 0 {
        assert(verbatim_spec(d) == Seq::<char>::empty());
        assert(ls =~= seq![ls[0]]);
        assert(verbatim_spec(ls) =~= ls[0] + seq!['\n']);
    } else {
        lemma_join_verbatim(d);
        assert(ls =~= d.push(ls.last()));
        lemma_join_push(d, ls.last());
        assert(join_seq(ls, seq!['\n']) + seq!['\n'] =~= verbatim_spec(d) + ls.last() + seq!['\n']);
    }
}

/// Clean lines joined with line breaks, and a final one, read back as
/// themselves.
proof fn lemma_lines_of_joined(ls: Seq<Seq<char>>)
    requires
        ls.len() > 0,
        forall|k: int| 0 <= k < ls.len() ==> clean_line(#[trigger] ls[k]),
    ensures
        lines_seq(join_seq(ls, seq!['\n']) + seq!['\n']) == ls,
{
    lemma_join_verbatim(ls);
    lemma_lines_verbatim(ls);
}

/// The lines of a text hold no line break.
proof fn lemma_lines_one_line(t: Seq<char>)
    ensures
        forall|k: int| 0 <= k < lines_seq(t).len() ==> one_line(#[trigger] lines_seq(t)[k]),
{
    crate::stamp_law::lemma_split_no_break(t);
    let p = split_seq(t, '\n');
    let q = if p.last().len() == 0 {
        p.drop_last()
    } else {
        p
    };
    assert forall|k: int| 0 <= k < lines_seq(t).len() implies one_line(#[trigger] lines_seq(t)[k]) by {
        assert(lines_seq(t)[k] == strip_cr(q[k]));
        assert(q[k] == p[k]);
        assert forall|j: int| 0 <= j < strip_cr(q[k]).len() implies strip_cr(q[k])[j] != '\n' by {
            assert(strip_cr(q[k])[j] == p[k][j]);
        }
    }
}

proof fn lemma_block_end(ls: Seq<Seq<char>>, j: int)
    requires
        0 <= j <= ls.len(),
    ensures
        j <= block_end(ls, j) <= ls.len(),
        block_end(ls, j) < ls.len() ==> ends_block(ls[block_end(ls, j)]),
    decreases ls.len() - j,
{
    if j < ls.len() && !ends_block(ls[j]) {
        lemma_block_end(ls, j + 1);
    }
}

proof fn lemma_opener(ls: Seq<Seq<char>>, i: int)
    requires
        0 <= i,
    ensures
        opener_from(ls, i) matches Some(s) ==> i <= s < ls.len(),
    decreases ls.len() - i,
{
    if i < ls.len() && !crate::store::herds::opens_herds(ls[i]) {
        lemma_opener(ls, i + 1);
    }
}

proof fn lemma_trim_start_skip(s: Seq<char>)
    ensures
        exists|k: int| 0 <= k <= s.len() && trim_start_seq(s) == s.skip(k),
    decreases s.len(),
{
    if s.len() > 0 && is_ws(s[0]) {
        lemma_trim_start_skip(s.drop_first());
        let k = choose|k: int| 0 <= k <= s.drop_first().len() && trim_start_seq(s.drop_first()) == s.drop_first().skip(k);
        assert(s.drop_first().skip(k) =~= s.skip(k + 1));
    } else {
        assert(s.skip(0) =~= s);
    }
}

proof fn lemma_trim_one_line(s: Seq<char>)
    requires
        one_line(s),
    ensures
        one_line(trim_seq(s)),
{
    lemma_trim_start_skip(s);
    let k = choose|k: int| 0 <= k <= s.len() && trim_start_seq(s) == s.skip(k);
    let a = trim_start_seq(s);
    assert forall|j: int| 0 <= j < a.len() implies a[j] != '\n' by {
        assert(a[j] == s[j + k]);
    }
    crate::store::roundtrip::lemma_trim_end_last(a);
    let b = trim_end_seq(a);
    assert forall|j: int| 0 <= j < b.len() implies b[j] != '\n' by {
        assert(b[j] == a.take(b.len() as int)[j]);
    }
}

proof fn lemma_unquote_one_line(raw: Seq<char>)
    requires
        one_line(raw),
    ensures
        one_line(unquote_spec(raw)),
{
    lemma_trim_one_line(raw);
    let s = trim_seq(raw);
    if s.len() >= 2 && s[0] == '"' && s.last() == '"' {
        let m = s.subrange(1, s.len() - 1);
        assert forall|j: int| 0 <= j < m.len() implies m[j] != '\n' by {
            assert(m[j] == s[j + 1]);
        }
    } else if s.len() >= 2 && s[0] == '\'' && s.last() == '\'' {
        let m = s.subrange(1, s.len() - 1);
        assert forall|j: int| 0 <= j < m.len() implies m[j] != '\n' by {
            assert(m[j] == s[j + 1]);
        }
        crate::store::roundtrip::lemma_replace_keeps_out(m, seq!['\'', '\''], seq!['\''], '\n');
    }
}

/// The default herd read from one-line lines is one line.
proof fn lemma_prefix_one_line(ls: Seq<Seq<char>>)
    requires
        forall|k: int| 0 <= k < ls.len() ==> one_line(#[trigger] ls[k]),
    ensures
        one_line(config_fold(ls).c.prefix),
    decreases ls.len(),
{
    if ls.len() == 0 {
        reveal_strlit("yak");
    } else {
        let d = ls.drop_last();
        assert forall|k: int| 0 <= k < d.len() implies one_line(#[trigger] d[k]) by {
            assert(d[k] == ls[k]);
        }
        lemma_prefix_one_line(d);
        let l = ls.last();
        assert(one_line(l)) by {
            assert(l == ls[ls.len() - 1]);
        }
        match first_from(l, seq![':'], 0) {
            Some(c) => {
                lemma_first_from(l, seq![':'], 0);
                let rest = l.skip(c + 1);
                assert forall|j: int| 0 <= j < rest.len() implies rest[j] != '\n' by {
                    assert(rest[j] == l[j + c + 1]);
                }
                lemma_trim_one_line(rest);
                lemma_unquote_one_line(trim_seq(rest));
            },
            None => {},
        }
    }
}

// ---------------------------------------------------------------------------
// the law
// ---------------------------------------------------------------------------

/// The reader reads the herds block the writer finds: where the config
/// declares herds and a line opens the block, the reader is still inside
/// the block where it ends.
pub open spec fn block_is_read(existing: Seq<char>) -> bool {
    let ls = lines_seq(existing);
    parse_config_spec(existing).herds.len() > 0 ==> match opener_from(ls, 0) {
        Some(s) => config_fold(ls.take(block_end(ls, s + 1))).sec == Section::Herds,
        None => true,
    }
}

proof fn lemma_fold_one(ls: Seq<Seq<char>>, x: Seq<char>)
    ensures
        config_fold(ls.push(x)) == config_step(config_fold(ls), x),
{
    assert(ls.push(x).drop_last() =~= ls);
}

pub open spec fn all_clean(ls: Seq<Seq<char>>) -> bool {
    forall|k: int| 0 <= k < ls.len() ==> clean_line(#[trigger] ls[k])
}

proof fn lemma_clean_cat(a: Seq<Seq<char>>, b: Seq<Seq<char>>)
    requires
        all_clean(a),
        all_clean(b),
    ensures
        all_clean(a + b),
{
    assert forall|k: int| 0 <= k < (a + b).len() implies clean_line(#[trigger] (a + b)[k]) by {
        if k < a.len() {
            assert((a + b)[k] == a[k]);
        } else {
            assert((a + b)[k] == b[k - a.len()]);
        }
    }
}

proof fn lemma_entries_clean(hs: Seq<Seq<char>>)
    requires
        forall|k: int| 0 <= k < hs.len() ==> one_line(#[trigger] hs[k]),
    ensures
        all_clean(entries(hs)),
{
    reveal_strlit("  ");
    reveal_strlit(":");
    assert forall|k: int| 0 <= k < entries(hs).len() implies clean_line(#[trigger] entries(hs)[k]) by {
        let h = hs[k];
        assert(one_line(h));
        let l = herd_entry(h);
        assert(entries(hs)[k] == l);
        assert(l =~= seq![' ', ' '] + h + seq![':']);
        assert forall|j: int| 0 <= j < l.len() implies l[j] != '\n' by {
            if 2 <= j < l.len() - 1 {
                assert(l[j] == h[j - 2]);
            }
        }
        assert(l.last() == ':');
    }
}

proof fn lemma_opener_clean()
    ensures
        all_clean(seq!["herds:"@]),
{
    reveal_strlit("herds:");
    assert(clean_line(seq!["herds:"@][0]));
}

proof fn lemma_seed_one_line(
    existing: Seq<char>,
    add: Seq<Seq<char>>,
    disk: Seq<Seq<char>>,
    seed: Seq<Seq<char>>,
)
    requires
        seed_ok(seed, add, parse_config_spec(existing), disk),
        forall|k: int| 0 <= k < add.len() ==> one_line(#[trigger] add[k]),
        forall|k: int| 0 <= k < disk.len() ==> one_line(#[trigger] disk[k]),
    ensures
        forall|k: int| 0 <= k < seed.len() ==> one_line(#[trigger] seed[k]),
{
    let c = parse_config_spec(existing);
    let ls = lines_seq(existing);
    lemma_lines_one_line(existing);
    lemma_prefix_one_line(ls);
    assert forall|k: int| 0 <= k < seed.len() implies one_line(#[trigger] seed[k]) by {
        let h = seed[k];
        assert(seed.contains(h));
        assert(seed_member(add, c, disk, h));
        if add.contains(h) {
            let q = choose|q: int| 0 <= q < add.len() && add[q] == h;
            assert(one_line(add[q]));
        } else if h == c.prefix {
        } else {
            let i = choose|i: int| 0 <= i < disk.len() && id_herd(#[trigger] disk[i]) == Some(h);
            let d = disk[i];
            assert(one_line(d));
            lemma_first_from(d, seq!['-'], 0);
            let j = first_from(d, seq!['-'], 0)->Some_0;
            assert(j + 1 <= d.len());
            assert(h == d.take(j));
            assert forall|m: int| 0 <= m < h.len() implies h[m] != '\n' by {
                assert(h[m] == d[m]);
            }
        }
    }
}

/// After declaring `add` in `existing`, every herd of `req` is declared
/// in the text written.
#[verifier::rlimit(100)]
proof fn lemma_all_declared(
    existing: Seq<char>,
    req: Seq<Seq<char>>,
    disk: Seq<Seq<char>>,
    add: Seq<Seq<char>>,
    text: Seq<char>,
)
    requires
        herds_declared(existing, req, disk, add, text),
        forall|k: int| 0 <= k < lines_seq(existing).len() ==> !(lines_seq(existing)[k].len() > 0
            && lines_seq(existing)[k].last() == '\r'),
        forall|k: int| 0 <= k < req.len() ==> entry_name_ok(#[trigger] req[k]),
        forall|k: int| 0 <= k < disk.len() ==> one_line(#[trigger] disk[k]),
        block_is_read(existing),
    ensures
        forall|h: Seq<char>| req.contains(h) ==> declared(parse_config_spec(text), h),
{
    let c = parse_config_spec(existing);
    let ls = lines_seq(existing);
    lemma_lines_one_line(existing);
    assert(all_clean(ls)) by {
        assert forall|k: int| 0 <= k < ls.len() implies clean_line(#[trigger] ls[k]) by {
            assert(one_line(ls[k]));
        }
    }
    assert forall|h: Seq<char>| add.contains(h) implies entry_name_ok(h) by {
        assert(req.contains(h));
        let k = choose|k: int| 0 <= k < req.len() && req[k] == h;
        assert(entry_name_ok(req[k]));
    }
    assert forall|k: int| 0 <= k < add.len() implies one_line(#[trigger] add[k]) by {
        assert(add.contains(add[k]));
        assert(entry_name_ok(add[k]));
    }
    assert forall|h: Seq<char>| #[trigger] declared(c, h) implies has_herd(c.herds, h) by {
        lemma_lookup_has(c.herds, h);
    }
    lemma_opener_clean();
    if add.len() == 0 {
        assert forall|h: Seq<char>| req.contains(h) implies declared(parse_config_spec(text), h) by {
            assert(!add.contains(h));
        }
    } else {
        let e0 = config_fold(ls);
        assert(c == e0.c);
        lemma_entries_clean(add);
        let fin: ReadState;
        let lw: Seq<Seq<char>>;
        if c.herds.len() > 0 {
            lw = declared_lines(ls, c, add, seq![]);
            match opener_from(ls, 0) {
                Some(st) => {
                    lemma_opener(ls, 0);
                    lemma_block_end(ls, st + 1);
                    let e = block_end(ls, st + 1);
                    let a = config_fold(ls.take(e));
                    assert(lw == ls.take(e) + entries(add) + ls.skip(e));
                    lemma_fold_cat(ls.take(e), entries(add));
                    lemma_entries(a, add);
                    let b = fold_from(a, entries(add));
                    lemma_fold_cat(ls.take(e) + entries(add), ls.skip(e));
                    assert(ls =~= ls.take(e) + ls.skip(e));
                    lemma_fold_cat(ls.take(e), ls.skip(e));
                    fin = fold_from(b, ls.skip(e));
                    if e < ls.len() {
                        let l = ls[e];
                        assert(ls.skip(e)[0] == l);
                        lemma_block_end_step(a, b, l);
                        lemma_step(b, b, l);
                        let a1 = config_step(a, l);
                        let b1 = config_step(b, l);
                        lemma_fold_agree(a1, b1, ls.skip(e).drop_first());
                        assert(fin == fold_from(b1, ls.skip(e).drop_first()));
                        assert(e0 == fold_from(a1, ls.skip(e).drop_first()));
                    } else {
                        assert(ls.skip(e) =~= Seq::<Seq<char>>::empty());
                        assert(fin == b);
                        assert(e0 == a);
                    }
                    assert(covers(fin.c.herds, b.c.herds));
                    assert(covers(fin.c.herds, c.herds));
                    assert forall|h: Seq<char>| add.contains(h) implies has_herd(fin.c.herds, h) by {
                        let k = choose|k: int| 0 <= k < add.len() && add[k] == h;
                        assert(entry_name_ok(add[k]));
                        assert(has_herd(b.c.herds, add[k]));
                    }
                    assert(config_fold(lw) == fin);
                    assert(all_clean(ls.take(e))) by {
                        assert forall|k: int| 0 <= k < ls.take(e).len() implies clean_line(#[trigger] ls.take(e)[k]) by {
                            assert(ls.take(e)[k] == ls[k]);
                        }
                    }
                    assert(all_clean(ls.skip(e))) by {
                        assert forall|k: int| 0 <= k < ls.skip(e).len() implies clean_line(#[trigger] ls.skip(e)[k]) by {
                            assert(ls.skip(e)[k] == ls[k + e]);
                        }
                    }
                    lemma_clean_cat(ls.take(e), entries(add));
                    lemma_clean_cat(ls.take(e) + entries(add), ls.skip(e));
                },
                None => {
                    assert(lw == ls.push("herds:"@) + entries(add));
                    lemma_fold_cat(ls.push("herds:"@), entries(add));
                    lemma_fold_one(ls, "herds:"@);
                    lemma_opener_step(e0);
                    let o = config_step(e0, "herds:"@);
                    lemma_entries(o, add);
                    fin = fold_from(o, entries(add));
                    assert(covers(fin.c.herds, c.herds));
                    assert forall|h: Seq<char>| add.contains(h) implies has_herd(fin.c.herds, h) by {
                        let k = choose|k: int| 0 <= k < add.len() && add[k] == h;
                        assert(entry_name_ok(add[k]));
                    }
                    assert(config_fold(lw) == fin);
                    assert(ls.push("herds:"@) =~= ls + seq!["herds:"@]);
                    lemma_clean_cat(ls, seq!["herds:"@]);
                    lemma_clean_cat(ls.push("herds:"@), entries(add));
                },
            }
        } else {
            let seed = choose|seed: Seq<Seq<char>>| #[trigger] seed_ok(seed, add, c, disk) && text
                == join_seq(declared_lines(ls, c, add, seed), seq!['\n']) + seq!['\n'];
            lw = declared_lines(ls, c, add, seed);
            let base = if ls.len() > 0 && trim_seq(ls.last()).len() > 0 {
                ls.push(seq![])
            } else {
                ls
            };
            assert(lw == base.push("herds:"@) + entries(seed));
            lemma_fold_cat(base.push("herds:"@), entries(seed));
            lemma_fold_one(base, "herds:"@);
            lemma_opener_step(config_fold(base));
            let o = config_step(config_fold(base), "herds:"@);
            lemma_entries(o, seed);
            fin = fold_from(o, entries(seed));
            assert forall|h: Seq<char>| add.contains(h) implies has_herd(fin.c.herds, h) by {
                assert(seed_member(add, c, disk, h));
                assert(seed.contains(h));
                let k = choose|k: int| 0 <= k < seed.len() && seed[k] == h;
                assert(entry_name_ok(seed[k]));
            }
            assert(config_fold(lw) == fin);
            assert(all_clean(base)) by {
                if ls.len() > 0 && trim_seq(ls.last()).len() > 0 {
                    assert(base =~= ls + seq![Seq::<char>::empty()]);
                    assert(clean_line(seq![Seq::<char>::empty()][0]));
                    lemma_clean_cat(ls, seq![Seq::<char>::empty()]);
                }
            }
            lemma_seed_one_line(existing, add, disk, seed);
            lemma_entries_clean(seed);
            assert(base.push("herds:"@) =~= base + seq!["herds:"@]);
            lemma_clean_cat(base, seq!["herds:"@]);
            lemma_clean_cat(base.push("herds:"@), entries(seed));
        }
        lemma_lines_of_joined(lw);
        assert(lines_seq(text) == lw);
        assert(parse_config_spec(text) == fin.c);
        assert forall|h: Seq<char>| req.contains(h) implies declared(parse_config_spec(text), h) by {
            lemma_lookup_has(fin.c.herds, h);
            if declared(c, h) {
                assert(has_herd(c.herds, h));
            } else {
                assert(add.contains(h));
            }
        }
    }
}

/// Declaring herds is idempotent: declaring the same herds again in the
/// text a first declaration wrote adds none and leaves the text as it is.
/// This holds where the names suit `  <herd>:` entries (no white space at
/// their ends, no `:`, no line break, no leading `#`), the ids on disk are
/// one line each, no line of the config ends in a carriage return, and the
/// herds block the writer finds is the one the reader reads.
pub proof fn declaring_again_adds_nothing(
    existing: Seq<char>,
    req: Seq<Seq<char>>,
    disk: Seq<Seq<char>>,
    add: Seq<Seq<char>>,
    text: Seq<char>,
    disk2: Seq<Seq<char>>,
    add2: Seq<Seq<char>>,
    text2: Seq<char>,
)
    requires
        herds_declared(existing, req, disk, add, text),
        herds_declared(text, req, disk2, add2, text2),
        forall|k: int| 0 <= k < lines_seq(existing).len() ==> !(lines_seq(existing)[k].len() > 0
            && lines_seq(existing)[k].last() == '\r'),
        forall|k: int| 0 <= k < req.len() ==> entry_name_ok(#[trigger] req[k]),
        forall|k: int| 0 <= k < disk.len() ==> one_line(#[trigger] disk[k]),
        block_is_read(existing),
    ensures
        add2.len() == 0,
        text2 == text,
{
    lemma_all_declared(existing, req, disk, add, text);
    if add2.len() > 0 {
        assert(add2.contains(add2[0]));
    }
}

} // verus!
