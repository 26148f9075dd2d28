//! Declaring herds in `config.yaml`: adding bare `  <herd>:` entries to the
//! `herds:` block while every other line stays byte-for-byte.

use vstd::prelude::*;
use crate::text::{
    chars_of, string_of, slice, eq_str, push_str, copy_chars, trim, trim_seq, lines, lines_seq,
    find, first_from, occurs_at, lemma_first_from, sort_strings, sorted_strs, views_of, join,
    join_seq, starts_with, has_prefix,
};
use crate::store::config::{ConfigView, herd_lookup, herd_index, parse_config, parse_config_spec};
use crate::model::strs;
use crate::filter::has_string;

verus! {

/// `h` is declared in the config's herds map.
pub open spec fn declared(c: ConfigView, h: Seq<char>) -> bool {
    herd_lookup(c.herds, h) is Some
}

/// The herd an id belongs to: the text before its first `-`, if it has one.
pub open spec fn id_herd(id: Seq<char>) -> Option<Seq<char>> {
    match first_from(id, seq!['-'], 0) {
        Some(i) => Some(id.take(i)),
        None => None,
    }
}

/// The line that opens the `herds:` block: key `herds`, nothing after the `:`.
pub open spec fn opens_herds(l: Seq<char>) -> bool {
    first_from(l, seq![':'], 0) matches Some(c) && trim_seq(l.take(c)) == "herds"@ && trim_seq(
        l.skip(c + 1),
    ).len() == 0
}

/// The first line at or after `i` that opens the `herds:` block.
pub open spec fn opener_from(ls: Seq<Seq<char>>, i: int) -> Option<int>
    decreases ls.len() - i,
{
    if i < 0 || i >= ls.len() {
        None
    } else if opens_herds(ls[i]) {
        Some(i)
    } else {
        opener_from(ls, i + 1)
    }
}

/// A line that ends an indented block: a new top-level key (not blank, not
/// a comment, not indented).
pub open spec fn ends_block(l: Seq<char>) -> bool {
    let t = trim_seq(l);
    t.len() > 0 && !starts_with(t, seq!['#']) && !starts_with(l, seq![' ']) && !starts_with(l, seq!['\t'])
}

/// The first line at or after `j` that ends the block, or the line count.
pub open spec fn block_end(ls: Seq<Seq<char>>, j: int) -> int
    decreases ls.len() - j,
{
    if j < 0 || j >= ls.len() {
        ls.len() as int
    } else if ends_block(ls[j]) {
        j
    } else {
        block_end(ls, j + 1)
    }
}

/// `  <herd>:`.
pub open spec fn herd_entry(h: Seq<char>) -> Seq<char> {
    "  "@ + h + ":"@
}

pub open spec fn entries(hs: Seq<Seq<char>>) -> Seq<Seq<char>> {
    hs.map_values(|h: Seq<char>| herd_entry(h))
}

/// The lines of `config.yaml` after declaring `adding`: inside the existing
/// `herds:` block (after its last line) when the config declares herds,
/// else in a fresh block, after a blank line, seeded with `seed`.
pub open spec fn declared_lines(
    ls: Seq<Seq<char>>,
    c: ConfigView,
    adding: Seq<Seq<char>>,
    seed: Seq<Seq<char>>,
) -> Seq<Seq<char>> {
    if c.herds.len() > 0 {
        match opener_from(ls, 0) {
            Some(s) => {
                let e = block_end(ls, s + 1);
                ls.take(e) + entries(adding) + ls.skip(e)
            },
            None => ls + seq!["herds:"@] + entries(adding),
        }
    } else {
        let base = if ls.len() > 0 && trim_seq(ls.last()).len() > 0 {
            ls.push(seq![])
        } else {
            ls
        };
        base + seq!["herds:"@] + entries(seed)
    }
}

/// The herds to add: those requested and not yet declared, sorted, each
/// once.
pub open spec fn adding_ok(add: Seq<Seq<char>>, req: Seq<Seq<char>>, c: ConfigView) -> bool {
    &&& sorted_strs(add)
    &&& add.no_duplicates()
    &&& forall|h: Seq<char>| add.contains(h) <==> (req.contains(h) && !declared(c, h))
}

/// What a fresh block is seeded with: the herds being added, the default
/// herd, and the herd of every id on disk.
pub open spec fn seed_member(adding: Seq<Seq<char>>, c: ConfigView, disk: Seq<Seq<char>>, h: Seq<char>) -> bool {
    ||| adding.contains(h)
    ||| h == c.prefix
    ||| exists|i: int| 0 <= i < disk.len() && id_herd(#[trigger] disk[i]) == Some(h)
}

/// A fresh block's seed: its members sorted, each once.
pub open spec fn seed_ok(seed: Seq<Seq<char>>, adding: Seq<Seq<char>>, c: ConfigView, disk: Seq<Seq<char>>) -> bool {
    &&& sorted_strs(seed)
    &&& seed.no_duplicates()
    &&& forall|h: Seq<char>| seed.contains(h) <==> seed_member(adding, c, disk, h)
}


/// `add` and `text` are what declaring the requested herds `req` in the
/// config text `existing` gives, `disk` being the ids on disk: the herds to
/// add, and the text with their entries (unchanged when there are none).
pub open spec fn herds_declared(
    existing: Seq<char>,
    req: Seq<Seq<char>>,
    disk: Seq<Seq<char>>,
    add: Seq<Seq<char>>,
    text: Seq<char>,
) -> bool {
    let c = parse_config_spec(existing);
    &&& adding_ok(add, req, c)
    &&& add.len() == 0 ==> text == existing
    &&& add.len() > 0 && c.herds.len() > 0 ==> text == join_seq(
        declared_lines(lines_seq(existing), c, add, seq![]),
        seq!['\n'],
    ) + seq!['\n']
    &&& add.len() > 0 && c.herds.len() == 0 ==> exists|seed: Seq<Seq<char>>|
        #[trigger] seed_ok(seed, add, c, disk) && text == join_seq(
            declared_lines(lines_seq(existing), c, add, seed),
            seq!['\n'],
        ) + seq!['\n']
}

proof fn lemma_perm_keeps_set(a: Seq<Seq<char>>, b: Seq<Seq<char>>)
    requires
        a.to_multiset() == b.to_multiset(),
        a.no_duplicates(),
    ensures
        b.no_duplicates(),
        forall|x: Seq<char>| a.contains(x) <==> b.contains(x),
{
    broadcast use vstd::seq_lib::group_to_multiset_ensures;
    a.lemma_multiset_has_no_duplicates();
    b.lemma_multiset_has_no_duplicates_conv();
    a.to_multiset_ensures();
    b.to_multiset_ensures();
    assert forall|x: Seq<char>| a.contains(x) <==> b.contains(x) by {
        assert(a.to_multiset().count(x) == b.to_multiset().count(x));
        assert(a.contains(x) <==> a.to_multiset().count(x) > 0);
        assert(b.contains(x) <==> b.to_multiset().count(x) > 0);
    }
}

fn opens_herds_exec(l: &[char]) -> (b: bool)
    ensures
        b == opens_herds(l@),
{
    let colon = vec![':'];
    assert(colon@ =~= seq![':']);
    proof {
        lemma_first_from(l@, colon@, 0);
        reveal_strlit("herds");
    }
    match find(l, &colon) {
        Some(c) => {
            assert(occurs_at(l@, colon@, c as int));
            assert(c + 1 <= l.len());
            assert(l@.take(c as int) == l@.subrange(0, c as int));
            assert(l@.skip(c + 1) == l@.subrange(c + 1, l@.len() as int));
            eq_str(&trim(&slice(l, 0, c)), "herds") && trim(&slice(l, c + 1, l.len())).len() == 0
        },
        None => false,
    }
}

fn ends_block_exec(l: &[char]) -> (b: bool)
    ensures
        b == ends_block(l@),
{
    let t = trim(l);
    let hash = vec!['#'];
    let sp = vec![' '];
    let tab = vec!['\t'];
    assert(hash@ =~= seq!['#']);
    assert(sp@ =~= seq![' ']);
    assert(tab@ =~= seq!['\t']);
    t.len() > 0 && !has_prefix(&t, &hash) && !has_prefix(l, &sp) && !has_prefix(l, &tab)
}

fn id_herd_exec(id: &[char]) -> (r: Option<Vec<char>>)
    ensures
        match r {
            Some(h) => id_herd(id@) == Some(h@),
            None => id_herd(id@) is None,
        },
{
    let dash = vec!['-'];
    assert(dash@ =~= seq!['-']);
    proof {
        lemma_first_from(id@, dash@, 0);
    }
    match find(id, &dash) {
        Some(i) => {
            assert(occurs_at(id@, dash@, i as int));
            assert(id@.take(i as int) == id@.subrange(0, i as int));
            Some(slice(id, 0, i))
        },
        None => None,
    }
}

fn push_entries(out: &mut Vec<Vec<char>>, hs: &Vec<String>)
    ensures
        final(out)@.map_values(|p: Vec<char>| p@) == old(out)@.map_values(|p: Vec<char>| p@) + entries(
            views_of(hs@),
        ),
{
    let ghost base = old(out)@.map_values(|p: Vec<char>| p@);
    let ghost hv = views_of(hs@);
    let mut i: usize = 0;
    assert(entries(hv.take(0)) =~= Seq::<Seq<char>>::empty());
    assert(out@.map_values(|p: Vec<char>| p@) =~= base + entries(hv.take(0)));
    while i < hs.len()
        invariant
            i <= hs.len(),
            hv == views_of(hs@),
            out@.map_values(|p: Vec<char>| p@) == base + entries(hv.take(i as int)),
        decreases hs.len() - i,
    {
        let mut e = chars_of("  ");
        push_str(&mut e, hs[i].as_str());
        push_str(&mut e, ":");
        let ghost before = out@.map_values(|p: Vec<char>| p@);
        out.push(e);
        proof {
            assert(e@ == herd_entry(hv[i as int]));
            assert(hv.take(i + 1) =~= hv.take(i as int).push(hv[i as int]));
            assert(entries(hv.take(i + 1)) =~= entries(hv.take(i as int)).push(herd_entry(hv[i as int])));
            assert(out@.map_values(|p: Vec<char>| p@) =~= before.push(e@));
        }
        i += 1;
    }
    assert(hv.take(hs.len() as int) =~= hv);
}

fn push_unique(v: &mut Vec<String>, s: &String)
    requires
        views_of(old(v)@).no_duplicates(),
    ensures
        views_of(final(v)@).no_duplicates(),
        forall|x: Seq<char>| views_of(final(v)@).contains(x) <==> (views_of(old(v)@).contains(x) || x == s@),
{
    let ghost before = views_of(v@);
    if !has_string(v, s) {
        v.push(s.clone());
        proof {
            assert(views_of(v@) =~= before.push(s@));
            assert(strs(old(v)@) =~= before);
            assert forall|x: Seq<char>| views_of(v@).contains(x) <==> (before.contains(x) || x == s@) by {
                if views_of(v@).contains(x) {
                    let k = choose|k: int| 0 <= k < views_of(v@).len() && views_of(v@)[k] == x;
                    if k < before.len() {
                        assert(before[k] == x);
                    }
                }
                if before.contains(x) {
                    let k = choose|k: int| 0 <= k < before.len() && before[k] == x;
                    assert(views_of(v@)[k] == x);
                }
                if x == s@ {
                    assert(views_of(v@)[before.len() as int] == x);
                }
            }
        }
    } else {
        assert(strs(v@) =~= before);
    }
}


fn push_lines(out: &mut Vec<Vec<char>>, ls: &Vec<Vec<char>>, from: usize, to: usize)
    requires
        from <= to <= ls.len(),
    ensures
        final(out)@.map_values(|p: Vec<char>| p@) == old(out)@.map_values(|p: Vec<char>| p@) + ls@.map_values(
            |p: Vec<char>| p@,
        ).subrange(from as int, to as int),
{
    let ghost base = old(out)@.map_values(|p: Vec<char>| p@);
    let ghost lv = ls@.map_values(|p: Vec<char>| p@);
    let mut i = from;
    assert(out@.map_values(|p: Vec<char>| p@) =~= base + lv.subrange(from as int, from as int));
    while i < to
        invariant
            from <= i <= to <= ls.len(),
            lv == ls@.map_values(|p: Vec<char>| p@),
            out@.map_values(|p: Vec<char>| p@) == base + lv.subrange(from as int, i as int),
        decreases to - i,
    {
        let ghost before = out@.map_values(|p: Vec<char>| p@);
        out.push(copy_chars(&ls[i]));
        assert(out@.map_values(|p: Vec<char>| p@) =~= before.push(lv[i as int]));
        assert(lv.subrange(from as int, i + 1) =~= lv.subrange(from as int, i as int).push(lv[i as int]));
        i += 1;
    }
}

/// The lines of the block-insertion case, `adding` placed at the end of the
/// existing `herds:` block.
fn insert_in_block(ls: &Vec<Vec<char>>, adding: &Vec<String>) -> (out: Vec<Vec<char>>)
    ensures
        ({
            let lv = ls@.map_values(|p: Vec<char>| p@);
            out@.map_values(|p: Vec<char>| p@) == match opener_from(lv, 0) {
                Some(s) => {
                    let e = block_end(lv, s + 1);
                    lv.take(e) + entries(views_of(adding@)) + lv.skip(e)
                },
                None => lv + seq!["herds:"@] + entries(views_of(adding@)),
            }
        }),
{
    let ghost lv = ls@.map_values(|p: Vec<char>| p@);
    let mut s: usize = 0;
    while s < ls.len() && !opens_herds_exec(&ls[s])
        invariant
            s <= ls.len(),
            lv == ls@.map_values(|p: Vec<char>| p@),
            opener_from(lv, 0) == opener_from(lv, s as int),
        decreases ls.len() - s,
    {
        s += 1;
    }
    let mut out: Vec<Vec<char>> = Vec::new();
    if s < ls.len() {
        assert(opener_from(lv, 0) == Some(s as int));
        let mut e = s + 1;
        while e < ls.len() && !ends_block_exec(&ls[e])
            invariant
                s + 1 <= e <= ls.len(),
                lv == ls@.map_values(|p: Vec<char>| p@),
                block_end(lv, s + 1) == block_end(lv, e as int),
            decreases ls.len() - e,
        {
            e += 1;
        }
        assert(block_end(lv, s + 1) == e);
        push_lines(&mut out, ls, 0, e);
        push_entries(&mut out, adding);
        push_lines(&mut out, ls, e, ls.len());
        assert(lv.subrange(0, e as int) =~= lv.take(e as int));
        assert(lv.subrange(e as int, lv.len() as int) =~= lv.skip(e as int));
        proof {
            let o = out@.map_values(|p: Vec<char>| p@);
            assert(o =~= lv.take(e as int) + entries(views_of(adding@)) + lv.skip(e as int));
        }
    } else {
        assert(opener_from(lv, 0) is None);
        push_lines(&mut out, ls, 0, ls.len());
        let ghost before = out@.map_values(|p: Vec<char>| p@);
        out.push(chars_of("herds:"));
        assert(out@.map_values(|p: Vec<char>| p@) =~= before.push("herds:"@));
        push_entries(&mut out, adding);
        assert(lv.subrange(0, lv.len() as int) =~= lv);
        proof {
            let o = out@.map_values(|p: Vec<char>| p@);
            assert(o =~= lv + seq!["herds:"@] + entries(views_of(adding@)));
        }
    }
    out
}

/// The herds a fresh block is seeded with, sorted and each once.
fn seed_herds(adding: &Vec<String>, prefix: &String, disk_ids: &Vec<String>) -> (r: Vec<String>)
    requires
        views_of(adding@).no_duplicates(),
    ensures
        sorted_strs(views_of(r@)),
        views_of(r@).no_duplicates(),
        forall|h: Seq<char>|
            views_of(r@).contains(h) <==> (views_of(adding@).contains(h) || h == prefix@ || exists|i: int|
                0 <= i < disk_ids@.len() && id_herd(#[trigger] strs(disk_ids@)[i]) == Some(h)),
{
    let mut all = crate::model::copy_strings(adding);
    let ghost dv = strs(disk_ids@);
    assert(views_of(all@) == views_of(adding@));
    push_unique(&mut all, prefix);
    let mut i: usize = 0;
    while i < disk_ids.len()
        invariant
            i <= disk_ids.len(),
            dv == strs(disk_ids@),
            views_of(all@).no_duplicates(),
            forall|h: Seq<char>|
                views_of(all@).contains(h) <==> (views_of(adding@).contains(h) || h == prefix@ || exists|j: int|
                    0 <= j < i && id_herd(#[trigger] dv[j]) == Some(h)),
        decreases disk_ids.len() - i,
    {
        let ghost prev = views_of(all@);
        match id_herd_exec(&chars_of(disk_ids[i].as_str())) {
            Some(hc) => {
                let h = string_of(&hc);
                push_unique(&mut all, &h);
                assert forall|x: Seq<char>|
                    views_of(all@).contains(x) <==> (views_of(adding@).contains(x) || x == prefix@ || exists|j: int|
                        0 <= j < i + 1 && id_herd(#[trigger] dv[j]) == Some(x)) by {
                    if x == h@ {
                        assert(id_herd(dv[i as int]) == Some(x));
                    }
                    if exists|j: int| 0 <= j < i + 1 && id_herd(#[trigger] dv[j]) == Some(x) {
                        let j = choose|j: int| 0 <= j < i + 1 && id_herd(#[trigger] dv[j]) == Some(x);
                        if j == i {
                            assert(x == h@);
                        }
                    }
                }
            },
            None => {
                assert forall|x: Seq<char>|
                    views_of(all@).contains(x) <==> (views_of(adding@).contains(x) || x == prefix@ || exists|j: int|
                        0 <= j < i + 1 && id_herd(#[trigger] dv[j]) == Some(x)) by {
                    if exists|j: int| 0 <= j < i + 1 && id_herd(#[trigger] dv[j]) == Some(x) {
                        let j = choose|j: int| 0 <= j < i + 1 && id_herd(#[trigger] dv[j]) == Some(x);
                        assert(j != i);
                    }
                }
            },
        }
        i += 1;
    }
    let r = sort_strings(all);
    proof {
        lemma_perm_keeps_set(views_of(all@), views_of(r@));
    }
    r
}


/// Declare `new_herds` in the `config.yaml` text `existing`, so merged-in
/// herds join the known-herd set. Returns the new text and the herds
/// actually added, sorted; herds already declared are skipped, so with
/// nothing to add the text comes back unchanged. Only bare `  <herd>:`
/// entries are added: inside the existing `herds:` block, or in a fresh
/// block seeded with the farm's current herds (the default one and those of
/// `disk_ids`, every id on disk) so materializing it loses none.
pub fn declare_herds(existing: &str, new_herds: &Vec<String>, disk_ids: &Vec<String>) -> (r: (String, Vec<String>))
    ensures
        herds_declared(existing@, strs(new_herds@), strs(disk_ids@), views_of(r.1@), r.0@),
{
    let cfg = parse_config(existing);
    let ghost c = cfg@;
    let ghost req = strs(new_herds@);
    let mut adding: Vec<String> = Vec::new();
    let mut i: usize = 0;
    while i < new_herds.len()
        invariant
            i <= new_herds.len(),
            c == cfg@,
            req == strs(new_herds@),
            views_of(adding@).no_duplicates(),
            forall|x: Seq<char>| #[trigger] views_of(adding@).contains(x) <==> (req.take(i as int).contains(x) && !declared(c, x)),
        decreases new_herds.len() - i,
    {
        let ghost prev = views_of(adding@);
        let ghost old_adding = adding;
        let h = &new_herds[i];
        let is_declared = herd_index(&cfg.herds, &chars_of(h.as_str())).is_some();
        assert(is_declared == declared(c, h@));
        if !is_declared {
            push_unique(&mut adding, h);
        }
        proof {
            let t1 = req.take(i + 1);
            assert(t1 =~= req.take(i as int).push(h@));
            assert forall|x: Seq<char>| views_of(adding@).contains(x) <==> (t1.contains(x) && !declared(c, x)) by {
                assert(t1.contains(x) <==> (req.take(i as int).contains(x) || x == h@)) by {
                    if t1.contains(x) {
                        let k = choose|k: int| 0 <= k < t1.len() && t1[k] == x;
                        if k < i {
                            assert(req.take(i as int)[k] == x);
                        }
                    }
                    if req.take(i as int).contains(x) {
                        let k = choose|k: int| 0 <= k < i && req.take(i as int)[k] == x;
                        assert(t1[k] == x);
                    }
                    if x == h@ {
                        assert(t1[i as int] == x);
                    }
                }
                assert(prev.contains(x) <==> (req.take(i as int).contains(x) && !declared(c, x))) by {
                    assert(prev == views_of(old_adding@));
                }
                if is_declared {
                    assert(views_of(adding@) == prev);
                } else {
                    assert(views_of(adding@).contains(x) <==> (prev.contains(x) || x == h@));
                }
            }
        }
        i += 1;
    }
    assert(req.take(new_herds.len() as int) =~= req);
    if adding.len() == 0 {
        return (crate::text::owned(existing), adding);
    }
    let ghost unsorted = views_of(adding@);
    assert forall|x: Seq<char>| unsorted.contains(x) <==> (req.contains(x) && !declared(c, x)) by {
        assert(views_of(adding@).contains(x) <==> (req.take(new_herds.len() as int).contains(x) && !declared(c, x)));
    }
    let adding = sort_strings(adding);
    proof {
        lemma_perm_keeps_set(unsorted, views_of(adding@));
        assert(forall|x: Seq<char>| views_of(adding@).contains(x) <==> unsorted.contains(x));
        assert(views_of(adding@).len() > 0) by {
            assert(unsorted.contains(unsorted[0]));
        }
    }
    let ls = lines(&chars_of(existing));
    let ghost lv = lines_seq(existing@);
    let ghost add = views_of(adding@);
    let ghost dv = strs(disk_ids@);
    let ghost seed: Seq<Seq<char>>;
    let mut out: Vec<Vec<char>>;
    if cfg.herds.len() > 0 {
        out = insert_in_block(&ls, &adding);
        proof {
            seed = seq![];
        }
    } else {
        out = Vec::new();
        push_lines(&mut out, &ls, 0, ls.len());
        assert(lv.subrange(0, lv.len() as int) =~= lv);
        if ls.len() > 0 && trim(&ls[ls.len() - 1]).len() > 0 {
            let ghost before = out@.map_values(|p: Vec<char>| p@);
            out.push(Vec::new());
            assert(out@.map_values(|p: Vec<char>| p@) =~= before.push(Seq::<char>::empty()));
        }
        let ghost base = out@.map_values(|p: Vec<char>| p@);
        out.push(chars_of("herds:"));
        assert(out@.map_values(|p: Vec<char>| p@) =~= base.push("herds:"@));
        let all = seed_herds(&adding, &cfg.prefix, disk_ids);
        push_entries(&mut out, &all);
        proof {
            seed = views_of(all@);
            assert(seed_ok(seed, add, c, dv));
            assert(lv.len() > 0 ==> lv.last() == ls@[ls.len() - 1]@);
            assert(out@.map_values(|p: Vec<char>| p@) =~= declared_lines(lv, c, add, seed));
        }
    }
    let nl = vec!['\n'];
    assert(nl@ =~= seq!['\n']);
    let mut text = join(&out, &nl);
    text.push('\n');
    proof {
        assert(out@.map_values(|p: Vec<char>| p@) == declared_lines(lv, c, add, seed));
        if c.herds.len() == 0 {
            assert(seed_ok(seed, add, c, dv));
        }
    }
    let r = (string_of(&text), adding);
    assert(adding_ok(views_of(r.1@), strs(new_herds@), c));
    proof {
        if c.herds.len() == 0 {
            assert(seed_ok(seed, add, c, dv));
        }
    }
    assert(r.0@ == join_seq(declared_lines(lv, c, add, seed), seq!['\n']) + seq!['\n']);
    assert(c == parse_config_spec(existing@));
    assert(lv == lines_seq(existing@));
    r
}

} // verus!
