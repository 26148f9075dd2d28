//! A yak's family: its live descendants, deepest first, and slaughtering a
//! yak together with them.

use vstd::prelude::*;
use crate::text::{same, seq_lt, str_lt};
use crate::model::{Status, Task, TaskView, tviews, strs};
use crate::filter::has_string;
use crate::farm::{Farm, ChangeView, changes_view};
use crate::farm::edit::same_frame;
use crate::farm::moves::move_result;
use crate::farm::query::{index_from, lemma_index_from, find_index};
use crate::store::layout::{file_views, MoveOutcome};

verus! {

/// `t` placed after every element whose id does not sort after its own.
pub open spec fn insert_by_id(s: Seq<TaskView>, t: TaskView) -> Seq<TaskView>
    decreases s.len(),
{
    if s.len() > 0 && seq_lt(t.id, s.last().id) {
        insert_by_id(s.drop_last(), t).push(s.last())
    } else {
        s.push(t)
    }
}

/// `s` sorted by id, stably: tasks with equal ids keep their order.
pub open spec fn by_id(s: Seq<TaskView>) -> Seq<TaskView>
    decreases s.len(),
{
    if s.len() == 0 {
        seq![]
    } else {
        insert_by_id(by_id(s.drop_last()), s.last())
    }
}

/// The children of `p` whose id is not in `seen`, by id.
pub open spec fn fresh_kids(tv: Seq<TaskView>, p: Seq<char>, seen: Seq<Seq<char>>) -> Seq<TaskView> {
    by_id(tv.filter(|t: TaskView| t.parent == Some(p) && !seen.contains(t.id)))
}

/// Inserting at the place a scan from the end stops at is `insert_by_id`.
proof fn lemma_insert_at(s: Seq<TaskView>, t: TaskView, pos: int)
    requires
        0 <= pos <= s.len(),
        forall|k: int| pos <= k < s.len() ==> seq_lt(t.id, #[trigger] s[k].id),
        pos > 0 ==> !seq_lt(t.id, s[pos - 1].id),
    ensures
        insert_by_id(s, t) == s.insert(pos, t),
    decreases s.len(),
{
    if pos == s.len() {
        assert(s.insert(pos, t) =~= s.push(t));
    } else {
        let d = s.drop_last();
        assert(seq_lt(t.id, s[s.len() - 1].id));
        lemma_insert_at(d, t, pos);
        assert(s.insert(pos, t) =~= d.insert(pos, t).push(s.last()));
    }
}

pub open spec fn ids(ts: Seq<TaskView>) -> Seq<Seq<char>> {
    ts.map_values(|t: TaskView| t.id)
}

/// One breadth-first level from `frontier[i..]`: the tasks found (parent by
/// parent, each parent's fresh children in task order) and what is seen
/// afterwards.
pub open spec fn level_from(tv: Seq<TaskView>, frontier: Seq<Seq<char>>, i: int, seen: Seq<Seq<char>>) -> (Seq<TaskView>, Seq<Seq<char>>)
    decreases frontier.len() - i,
{
    if i < 0 || i >= frontier.len() {
        (seq![], seen)
    } else {
        let ks = fresh_kids(tv, frontier[i], seen);
        let rest = level_from(tv, frontier, i + 1, seen + ids(ks));
        (ks + rest.0, rest.1)
    }
}

/// The tasks a breadth-first walk down `parent` links finds, level by
/// level, over at most `fuel` levels.
pub open spec fn walk(tv: Seq<TaskView>, frontier: Seq<Seq<char>>, seen: Seq<Seq<char>>, fuel: nat) -> Seq<TaskView>
    decreases fuel,
{
    if fuel == 0 || frontier.len() == 0 {
        seq![]
    } else {
        let lvl = level_from(tv, frontier, 0, seen);
        lvl.0 + walk(tv, ids(lvl.0), lvl.1, (fuel - 1) as nat)
    }
}

/// Every live descendant of `id`, deepest first: the walk from `id`, live
/// ones only, reversed.
pub open spec fn live_descendants_spec(tv: Seq<TaskView>, id: Seq<char>) -> Seq<Seq<char>> {
    ids(walk(tv, seq![id], seq![id], tv.len()).filter(|t: TaskView| t.status != Status::Dead)).reverse()
}

/// The live descendants of `id` as tasks, deepest first.
pub open spec fn live_descendant_tasks(tv: Seq<TaskView>, id: Seq<char>) -> Seq<TaskView> {
    walk(tv, seq![id], seq![id], tv.len()).filter(|t: TaskView| t.status != Status::Dead).reverse()
}

/// No task of `s` has its parent later in `s`.
pub open spec fn parents_earlier_never_later(s: Seq<TaskView>) -> bool {
    forall|i: int, j: int| 0 <= i < j < s.len() ==> #[trigger] s[i].parent != Some(#[trigger] s[j].id)
}

pub open spec fn parent_in(t: TaskView, fr: Seq<Seq<char>>) -> bool {
    match t.parent {
        Some(q) => fr.contains(q),
        None => false,
    }
}

proof fn lemma_insert_elems(s: Seq<TaskView>, t: TaskView)
    ensures
        forall|x: TaskView| #[trigger] insert_by_id(s, t).contains(x) ==> s.contains(x) || x == t,
    decreases s.len(),
{
    if s.len() > 0 && seq_lt(t.id, s.last().id) {
        let d = s.drop_last();
        lemma_insert_elems(d, t);
        assert forall|x: TaskView| #[trigger] insert_by_id(s, t).contains(x) implies s.contains(x) || x == t by {
            let r = insert_by_id(d, t);
            let k = choose|k: int| 0 <= k < r.push(s.last()).len() && r.push(s.last())[k] == x;
            if k < r.len() {
                assert(r.contains(x));
                if d.contains(x) {
                    let m = choose|m: int| 0 <= m < d.len() && d[m] == x;
                    assert(s[m] == x);
                }
            } else {
                assert(s[s.len() - 1] == x);
            }
        }
    } else {
        assert forall|x: TaskView| #[trigger] insert_by_id(s, t).contains(x) implies s.contains(x) || x == t by {
            let k = choose|k: int| 0 <= k < s.push(t).len() && s.push(t)[k] == x;
            if k < s.len() {
                assert(s[k] == x);
            }
        }
    }
}

proof fn lemma_by_id_elems(s: Seq<TaskView>)
    ensures
        forall|x: TaskView| #[trigger] by_id(s).contains(x) ==> s.contains(x),
    decreases s.len(),
{
    if s.len() > 0 {
        let d = s.drop_last();
        lemma_by_id_elems(d);
        lemma_insert_elems(by_id(d), s.last());
        assert forall|x: TaskView| #[trigger] by_id(s).contains(x) implies s.contains(x) by {
            if by_id(d).contains(x) {
                let m = choose|m: int| 0 <= m < d.len() && d[m] == x;
                assert(s[m] == x);
            } else {
                assert(s[s.len() - 1] == x);
            }
        }
    }
}

/// One level of the walk finds tasks whose ids were not seen and whose
/// parents are on the frontier, and sees their ids afterwards.
proof fn lemma_level(tv: Seq<TaskView>, fr: Seq<Seq<char>>, i: int, seen: Seq<Seq<char>>)
    requires
        0 <= i,
    ensures
        level_from(tv, fr, i, seen).1 == seen + ids(level_from(tv, fr, i, seen).0),
        forall|k: int|
            0 <= k < level_from(tv, fr, i, seen).0.len() ==> !seen.contains(
                #[trigger] level_from(tv, fr, i, seen).0[k].id,
            ) && parent_in(level_from(tv, fr, i, seen).0[k], fr),
    decreases fr.len() - i,
{
    if i < fr.len() {
        let pred = |t: TaskView| t.parent == Some(fr[i]) && !seen.contains(t.id);
        let fl = tv.filter(pred);
        let ks = fresh_kids(tv, fr[i], seen);
        let seen2 = seen + ids(ks);
        lemma_level(tv, fr, i + 1, seen2);
        lemma_by_id_elems(fl);
        let rest = level_from(tv, fr, i + 1, seen2);
        let l = level_from(tv, fr, i, seen);
        assert(l.0 == ks + rest.0);
        assert(ids(ks + rest.0) =~= ids(ks) + ids(rest.0));
        assert(l.1 =~= seen + ids(l.0));
        assert(fr.contains(fr[i]));
        assert forall|k: int| 0 <= k < l.0.len() implies !seen.contains(#[trigger] l.0[k].id)
            && parent_in(l.0[k], fr) by {
            if k < ks.len() {
                assert(l.0[k] == ks[k]);
                assert(by_id(fl).contains(ks[k]));
                let m = choose|m: int| 0 <= m < fl.len() && fl[m] == ks[k];
                tv.lemma_filter_pred(pred, m);
            } else {
                assert(l.0[k] == rest.0[k - ks.len()]);
                if seen.contains(l.0[k].id) {
                    let m = choose|m: int| 0 <= m < seen.len() && seen[m] == l.0[k].id;
                    assert(seen2[m] == l.0[k].id);
                }
            }
        }
    }
}

/// The walk never finds a seen id, and never puts a task before its parent.
proof fn lemma_walk_order(tv: Seq<TaskView>, fr: Seq<Seq<char>>, seen: Seq<Seq<char>>, fuel: nat)
    requires
        forall|k: int| 0 <= k < fr.len() ==> seen.contains(#[trigger] fr[k]),
    ensures
        forall|k: int| 0 <= k < walk(tv, fr, seen, fuel).len() ==> !seen.contains(
            #[trigger] walk(tv, fr, seen, fuel)[k].id,
        ),
        parents_earlier_never_later(walk(tv, fr, seen, fuel)),
    decreases fuel,
{
    if fuel > 0 && fr.len() > 0 {
        let l = level_from(tv, fr, 0, seen);
        let ks = l.0;
        let seen2 = l.1;
        lemma_level(tv, fr, 0, seen);
        let fr2 = ids(ks);
        assert forall|k: int| 0 <= k < fr2.len() implies seen2.contains(#[trigger] fr2[k]) by {
            assert(seen2[seen.len() + k] == fr2[k]);
        }
        lemma_walk_order(tv, fr2, seen2, (fuel - 1) as nat);
        let r = walk(tv, fr2, seen2, (fuel - 1) as nat);
        let w = walk(tv, fr, seen, fuel);
        assert(w == ks + r);
        assert forall|x: Seq<char>| seen.contains(x) implies seen2.contains(x) by {
            let m = choose|m: int| 0 <= m < seen.len() && seen[m] == x;
            assert(seen2[m] == x);
        }
        assert forall|k: int| 0 <= k < w.len() implies !seen.contains(#[trigger] w[k].id) by {
            if k < ks.len() {
                assert(w[k] == ks[k]);
            } else {
                assert(w[k] == r[k - ks.len()]);
            }
        }
        assert forall|i: int, j: int| 0 <= i < j < w.len() implies #[trigger] w[i].parent != Some(
            #[trigger] w[j].id,
        ) by {
            if i < ks.len() {
                assert(w[i] == ks[i]);
                assert(!seen.contains(ks[i].id));
                assert(parent_in(ks[i], fr));
                if let Some(q) = ks[i].parent {
                    let m = choose|m: int| 0 <= m < fr.len() && fr[m] == q;
                    assert(seen.contains(fr[m]));
                }
                if j < ks.len() {
                    assert(w[j] == ks[j]);
                    assert(!seen.contains(ks[j].id));
                } else {
                    assert(w[j] == r[j - ks.len()]);
                    assert(!seen2.contains(r[j - ks.len()].id));
                }
            } else {
                assert(w[i] == r[i - ks.len()] && w[j] == r[j - ks.len()]);
            }
        }
    }
}

proof fn lemma_filter_order(s: Seq<TaskView>, p: spec_fn(TaskView) -> bool)
    requires
        parents_earlier_never_later(s),
    ensures
        parents_earlier_never_later(s.filter(p)),
    decreases s.len(),
{
    if s.len() > 0 {
        let d = s.drop_last();
        let x = s.last();
        assert(parents_earlier_never_later(d)) by {
            assert forall|i: int, j: int| 0 <= i < j < d.len() implies #[trigger] d[i].parent != Some(
                #[trigger] d[j].id,
            ) by {
                assert(d[i] == s[i] && d[j] == s[j]);
            }
        }
        lemma_filter_order(d, p);
        assert(s =~= d.push(x));
        d.lemma_filter_push(x, p);
        let f = d.filter(p);
        if p(x) {
            let g = f.push(x);
            assert forall|i: int, j: int| 0 <= i < j < g.len() implies #[trigger] g[i].parent != Some(
                #[trigger] g[j].id,
            ) by {
                if j < f.len() {
                    assert(g[i] == f[i] && g[j] == f[j]);
                } else {
                    assert(g[i] == f[i] && g[j] == x);
                    assert(f.contains(f[i]));
                    d.lemma_filter_contains_rev(p, f[i]);
                    let m = choose|m: int| 0 <= m < d.len() && d[m] == f[i];
                    assert(s[m] == f[i] && s[s.len() - 1] == x);
                }
            }
        }
    }
}

/// The live descendants come children first: no yak in the list has its
/// parent earlier in the list, so moving them to dead in order never leaves
/// a live yak under a dead one.
pub proof fn children_before_parents(tv: Seq<TaskView>, id: Seq<char>)
    ensures
        live_descendants_spec(tv, id) == ids(live_descendant_tasks(tv, id)),
        forall|i: int, j: int|
            0 <= i < j < live_descendant_tasks(tv, id).len() ==> #[trigger] live_descendant_tasks(
                tv,
                id,
            )[j].parent != Some(#[trigger] live_descendant_tasks(tv, id)[i].id),
{
    let w = walk(tv, seq![id], seq![id], tv.len());
    assert(seq![id].contains(seq![id][0]));
    lemma_walk_order(tv, seq![id], seq![id], tv.len());
    let live = |t: TaskView| t.status != Status::Dead;
    lemma_filter_order(w, live);
    let f = w.filter(live);
    let d = f.reverse();
    assert(ids(d) =~= ids(f).reverse());
    assert forall|i: int, j: int| 0 <= i < j < d.len() implies #[trigger] d[j].parent != Some(
        #[trigger] d[i].id,
    ) by {
        let n = f.len();
        assert(d[j] == f[n - 1 - j] && d[i] == f[n - 1 - i]);
    }
}

fn kids_of(tasks: &Vec<Task>, p: &String, seen: &Vec<String>) -> (r: Vec<usize>)
    ensures
        r@.map_values(|k: usize| tviews(tasks@)[k as int]) == fresh_kids(tviews(tasks@), p@, strs(seen@)),
        forall|q: int| 0 <= q < r@.len() ==> r@[q] < tasks@.len(),
{
    let ghost tv = tviews(tasks@);
    let ghost pred = |t: TaskView| t.parent == Some(p@) && !strs(seen@).contains(t.id);
    let mut r: Vec<usize> = Vec::new();
    let mut i: usize = 0;
    assert(tv.take(0).filter(pred) =~= Seq::empty());
    while i < tasks.len()
        invariant
            i <= tasks.len(),
            tv == tviews(tasks@),
            pred == (|t: TaskView| t.parent == Some(p@) && !strs(seen@).contains(t.id)),
            r@.map_values(|k: usize| tv[k as int]) == tv.take(i as int).filter(pred),
            forall|q: int| 0 <= q < r@.len() ==> r@[q] < i,
        decreases tasks.len() - i,
    {
        let t = &tasks[i];
        proof {
            assert(tv[i as int] == t@);
            assert(tv.take(i + 1) == tv.take(i as int).push(t@));
            tv.take(i as int).lemma_filter_push(t@, pred);
        }
        let child = match &t.parent {
            Some(x) => same(x.as_str(), p.as_str()),
            None => false,
        };
        if child && !has_string(seen, &t.id) {
            let ghost before = r@;
            r.push(i);
            assert(r@.map_values(|k: usize| tv[k as int]) =~= before.map_values(|k: usize| tv[k as int]).push(t@));
        }
        i += 1;
    }
    assert(tv.take(tasks.len() as int) == tv);
    let ghost fl = tv.take(tasks.len() as int).filter(pred);
    // order the children by id, stably
    let mut out: Vec<usize> = Vec::new();
    let mut m: usize = 0;
    assert(fl.take(0) =~= Seq::<TaskView>::empty());
    assert(out@.map_values(|k: usize| tv[k as int]) =~= by_id(fl.take(0)));
    while m < r.len()
        invariant
            m <= r.len(),
            tv == tviews(tasks@),
            r@.map_values(|k: usize| tv[k as int]) == fl,
            forall|q: int| 0 <= q < r@.len() ==> r@[q] < tasks@.len(),
            forall|q: int| 0 <= q < out@.len() ==> out@[q] < tasks@.len(),
            out@.map_values(|k: usize| tv[k as int]) == by_id(fl.take(m as int)),
        decreases r.len() - m,
    {
        let idx = r[m];
        let ghost sv = out@.map_values(|k: usize| tv[k as int]);
        let ghost t = tv[idx as int];
        assert(fl[m as int] == t);
        let mut pos = out.len();
        while pos > 0 && str_lt(tasks[idx].id.as_str(), tasks[out[pos - 1]].id.as_str())
            invariant
                pos <= out.len(),
                tv == tviews(tasks@),
                idx < tasks@.len(),
                t == tv[idx as int],
                forall|q: int| 0 <= q < out@.len() ==> out@[q] < tasks@.len(),
                sv == out@.map_values(|k: usize| tv[k as int]),
                forall|k: int| pos <= k < sv.len() ==> seq_lt(t.id, #[trigger] sv[k].id),
            decreases pos,
        {
            assert(sv[pos - 1] == tv[out@[pos - 1] as int]);
            pos -= 1;
        }
        proof {
            if pos > 0 {
                assert(sv[pos - 1] == tv[out@[pos - 1] as int]);
            }
            lemma_insert_at(sv, t, pos as int);
            assert(fl.take(m + 1).drop_last() =~= fl.take(m as int));
            assert(fl.take(m + 1).last() == t);
        }
        out.insert(pos, idx);
        proof {
            assert(out@.map_values(|k: usize| tv[k as int]) =~= sv.insert(pos as int, t));
            assert forall|q: int| 0 <= q < out@.len() implies out@[q] < tasks@.len() by {
                if q < pos {
                } else if q > pos {
                }
            }
        }
        m += 1;
    }
    assert(fl.take(r.len() as int) =~= fl);
    out
}

/// Every live (non-dead) descendant of `id` in `tasks` (as loaded, in id
/// order), found breadth-first via `parent` and ordered deepest first, so
/// moving them in order never leaves a live yak under a dead one. Each id is
/// visited once, so a `parent` cycle ends the walk.
pub fn live_descendants(tasks: &Vec<Task>, id: &str) -> (out: Vec<String>)
    ensures
        strs(out@) == live_descendants_spec(tviews(tasks@), id@),
{
    let ghost tv = tviews(tasks@);
    let ghost full = walk(tv, seq![id@], seq![id@], tv.len());
    let ghost live = |t: TaskView| t.status != Status::Dead;
    let mut seen: Vec<String> = Vec::new();
    seen.push(crate::text::owned(id));
    let mut frontier: Vec<String> = Vec::new();
    frontier.push(crate::text::owned(id));
    assert(strs(seen@) =~= seq![id@]);
    assert(strs(frontier@) =~= seq![id@]);
    let mut out: Vec<String> = Vec::new();
    let mut fuel: usize = tasks.len();
    let ghost mut found: Seq<TaskView> = seq![];
    assert(found + full == full);
    while frontier.len() > 0 && fuel > 0
        invariant
            tv == tviews(tasks@),
            live == (|t: TaskView| t.status != Status::Dead),
            found + walk(tv, strs(frontier@), strs(seen@), fuel as nat) == full,
            strs(out@) == ids(found.filter(live)),
        decreases fuel,
    {
        let ghost lvl = level_from(tv, strs(frontier@), 0, strs(seen@));
        let ghost seen0 = strs(seen@);
        let ghost fr = strs(frontier@);
        let mut next: Vec<String> = Vec::new();
        let ghost mut got: Seq<TaskView> = seq![];
        let mut j: usize = 0;
        while j < frontier.len()
            invariant
                j <= frontier.len(),
                tv == tviews(tasks@),
                fr == strs(frontier@),
                live == (|t: TaskView| t.status != Status::Dead),
                lvl == level_from(tv, fr, 0, seen0),
                lvl.0 == got + level_from(tv, fr, j as int, strs(seen@)).0,
                lvl.1 == level_from(tv, fr, j as int, strs(seen@)).1,
                strs(next@) == ids(got),
                strs(out@) == ids((found + got).filter(live)),
            decreases frontier.len() - j,
        {
            let kids = kids_of(tasks, &frontier[j], &seen);
            let ghost ks = fresh_kids(tv, fr[j as int], strs(seen@));
            let ghost seen_before = strs(seen@);
            assert(fr[j as int] == frontier@[j as int]@);
            let mut q: usize = 0;
            while q < kids.len()
                invariant
                    q <= kids.len(),
                    tv == tviews(tasks@),
                    live == (|t: TaskView| t.status != Status::Dead),
                    kids@.map_values(|k: usize| tv[k as int]) == ks,
                    forall|m: int| 0 <= m < kids@.len() ==> kids@[m] < tasks@.len(),
                    strs(seen@) == seen_before + ids(ks.take(q as int)),
                    strs(next@) == ids(got + ks.take(q as int)),
                    strs(out@) == ids((found + got + ks.take(q as int)).filter(live)),
                decreases kids.len() - q,
            {
                let t = &tasks[kids[q]];
                let ghost tq = ks[q as int];
                assert(tq == t@);
                let ghost sb = seen@;
                let ghost nb = next@;
                let ghost ob = out@;
                seen.push(t.id.clone());
                next.push(t.id.clone());
                proof {
                    assert(ks.take(q + 1) == ks.take(q as int).push(tq));
                    assert(ids(ks.take(q + 1)) =~= ids(ks.take(q as int)).push(tq.id));
                    assert(strs(seen@) =~= strs(sb).push(tq.id));
                    assert(got + ks.take(q + 1) =~= (got + ks.take(q as int)).push(tq));
                    assert(ids((got + ks.take(q as int)).push(tq)) =~= ids(got + ks.take(q as int)).push(tq.id));
                    assert(strs(next@) =~= strs(nb).push(tq.id));
                    assert(found + got + ks.take(q + 1) =~= (found + got + ks.take(q as int)).push(tq));
                    (found + got + ks.take(q as int)).lemma_filter_push(tq, live);
                }
                if t.status != Status::Dead {
                    out.push(t.id.clone());
                    proof {
                        assert(ids((found + got + ks.take(q as int)).filter(live).push(tq)) =~= ids((found + got + ks.take(q as int)).filter(live)).push(tq.id));
                        assert(strs(out@) =~= strs(ob).push(tq.id));
                    }
                }
                q += 1;
            }
            proof {
                assert(ks.take(kids.len() as int) == ks);
                let rest = level_from(tv, fr, j + 1, seen_before + ids(ks));
                assert(level_from(tv, fr, j as int, seen_before) == (ks + rest.0, rest.1));
                assert(got + (ks + rest.0) =~= (got + ks) + rest.0);
                assert(found + got + ks =~= found + (got + ks));
                got = got + ks;
            }
            j += 1;
        }
        proof {
            assert(level_from(tv, fr, frontier.len() as int, strs(seen@)) == (Seq::<TaskView>::empty(), strs(seen@)));
            assert(got =~= lvl.0);
            assert(walk(tv, fr, seen0, fuel as nat) == lvl.0 + walk(tv, ids(lvl.0), lvl.1, (fuel - 1) as nat));
            vstd::seq_lib::lemma_concat_associative(found, lvl.0, walk(tv, ids(lvl.0), lvl.1, (fuel - 1) as nat));
            found = found + got;
        }
        frontier = next;
        fuel -= 1;
    }
    proof {
        assert(walk(tv, strs(frontier@), strs(seen@), fuel as nat) == Seq::<TaskView>::empty());
        assert(found + Seq::<TaskView>::empty() == found);
    }
    let ghost before = strs(out@);
    let mut rev: Vec<String> = Vec::new();
    let mut k = out.len();
    while k > 0
        invariant
            k <= out.len(),
            before == strs(out@),
            strs(rev@) == before.subrange(k as int, before.len() as int).reverse(),
        decreases k,
    {
        let ghost rb = rev@;
        rev.push(out[k - 1].clone());
        assert(strs(rev@) =~= strs(rb).push(before[k - 1]));
        assert(before.subrange(k - 1, before.len() as int).reverse() =~= before.subrange(k as int, before.len() as int).reverse().push(before[k - 1]));
        k -= 1;
    }
    assert(before.subrange(0, before.len() as int) == before);
    rev
}

/// Result of a slaughter.
#[derive(Debug, PartialEq, Eq)]
pub enum SlaughterOutcome {
    NotFound,
    /// Already dead, with no live descendants to take with it.
    AlreadyDead,
    /// Refused: slaughtering would orphan these live descendants.
    HasLiveDescendants(Vec<String>),
    /// Moved to dead: the live descendants (deepest first), then the yak
    /// itself (omitted if it was already dead).
    Slaughtered(Vec<String>),
}

/// Moving each of `ds` to dead in turn: the ids actually moved, and the
/// tasks, files and writes after; `None` when a task file does not parse.
pub open spec fn sweep(
    tv: Seq<TaskView>,
    fv: Seq<(Seq<char>, Status)>,
    ds: Seq<Seq<char>>,
    now: Seq<char>,
) -> Option<(Seq<Seq<char>>, Seq<TaskView>, Seq<(Seq<char>, Status)>, Seq<ChangeView>)>
    decreases ds.len(),
{
    if ds.len() == 0 {
        Some((seq![], tv, fv, seq![]))
    } else {
        match sweep(tv, fv, ds.drop_last(), now) {
            None => None,
            Some(a) => match move_result(a.1, a.2, ds.last(), Status::Dead, now) {
                None => None,
                Some(m) => Some((
                    if m.0 == MoveOutcome::Moved { a.0.push(ds.last()) } else { a.0 },
                    m.1,
                    m.2,
                    a.3 + m.3,
                )),
            },
        }
    }
}

impl Farm {
    /// Slaughter `id` (move it to dead). Refused when that would orphan live
    /// descendants, unless `family` is set, in which case every live
    /// descendant (deepest first) goes too, then `id`.
    pub fn slaughter(&mut self, id: &str, family: bool, now: &str) -> (r: Result<SlaughterOutcome, String>)
        requires
            old(self).wf(),
        ensures
            final(self).wf(),
            same_frame(*final(self), *old(self)),
            ({
                let tv = tviews(old(self).tasks@);
                let fv = file_views(old(self).files@);
                let unchanged = final(self).tasks@ == old(self).tasks@ && final(self).files@
                    == old(self).files@ && final(self).changes@ == old(self).changes@;
                match index_from(tv, id@, 0) {
                    None => r == Ok::<SlaughterOutcome, String>(SlaughterOutcome::NotFound) && unchanged,
                    Some(k) => {
                        let doomed = live_descendants_spec(tv, id@);
                        if doomed.len() > 0 && !family {
                            r matches Ok(SlaughterOutcome::HasLiveDescendants(d)) && strs(d@) == doomed && unchanged
                        } else if tv[k].status == Status::Dead && doomed.len() == 0 {
                            r == Ok::<SlaughterOutcome, String>(SlaughterOutcome::AlreadyDead) && unchanged
                        } else {
                            match sweep(tv, fv, doomed.push(id@), now@) {
                                None => r is Err,
                                Some(w) => {
                                    &&& r matches Ok(SlaughterOutcome::Slaughtered(m)) && strs(m@) == w.0
                                    &&& tviews(final(self).tasks@) == w.1
                                    &&& file_views(final(self).files@) == w.2
                                    &&& changes_view(final(self).changes@) == changes_view(old(self).changes@) + w.3
                                },
                            }
                        }
                    },
                }
            }),
    {
        let ghost tv = tviews(self.tasks@);
        let ghost fv = file_views(self.files@);
        proof {
            lemma_index_from(tv, id@, 0);
        }
        let k = match find_index(&self.tasks, id) {
            Some(k) => k,
            None => return Ok(SlaughterOutcome::NotFound),
        };
        let doomed = live_descendants(&self.tasks, id);
        if doomed.len() > 0 && !family {
            return Ok(SlaughterOutcome::HasLiveDescendants(doomed));
        }
        if self.tasks[k].status == Status::Dead && doomed.len() == 0 {
            return Ok(SlaughterOutcome::AlreadyDead);
        }
        let mut all = doomed;
        let ghost dv = strs(all@);
        all.push(crate::text::owned(id));
        let ghost ds = strs(all@);
        assert(ds =~= dv.push(id@));
        let ghost c0 = changes_view(self.changes@);
        let mut moved: Vec<String> = Vec::new();
        let mut i: usize = 0;
        assert(ds.take(0) =~= Seq::<Seq<char>>::empty());
        assert(c0 + Seq::<ChangeView>::empty() == c0);
        while i < all.len()
            invariant
                i <= all.len(),
                ds == strs(all@),
                tv == tviews(old(self).tasks@),
                fv == file_views(old(self).files@),
                c0 == changes_view(old(self).changes@),
                ds == live_descendants_spec(tv, id@).push(id@),
                index_from(tv, id@, 0) == Some(k as int),
                !(live_descendants_spec(tv, id@).len() > 0 && !family),
                !(tv[k as int].status == Status::Dead && live_descendants_spec(tv, id@).len() == 0),
                self.wf(),
                same_frame(*self, *old(self)),
                sweep(tv, fv, ds.take(i as int), now@) matches Some(w) && strs(moved@) == w.0 && tviews(
                    self.tasks@,
                ) == w.1 && file_views(self.files@) == w.2 && changes_view(self.changes@) == c0 + w.3,
            decreases all.len() - i,
        {
            let d = &all[i];
            proof {
                assert(ds.take(i + 1).drop_last() == ds.take(i as int));
                assert(ds.take(i + 1).last() == d@);
            }
            let ghost cb = changes_view(self.changes@);
            match self.transition(d.as_str(), Status::Dead, now) {
                Ok(o) => {
                    if o == MoveOutcome::Moved {
                        let ghost mb = strs(moved@);
                        moved.push(d.clone());
                        assert(strs(moved@) =~= mb.push(d@));
                    }
                    proof {
                        let w = sweep(tv, fv, ds.take(i as int), now@)->0;
                        let m = move_result(w.1, w.2, d@, Status::Dead, now@)->0;
                        vstd::seq_lib::lemma_concat_associative(c0, w.3, m.3);
                    }
                },
                Err(e) => {
                    proof {
                        let w = sweep(tv, fv, ds.take(i as int), now@)->0;
                        assert(move_result(w.1, w.2, d@, Status::Dead, now@) is None);
                        lemma_sweep_none(tv, fv, ds, i + 1, now@);
                    }
                    return Err(e);
                },
            }
            i += 1;
        }
        assert(ds.take(all.len() as int) == ds);
        Ok(SlaughterOutcome::Slaughtered(moved))
    }
}

proof fn lemma_sweep_none(tv: Seq<TaskView>, fv: Seq<(Seq<char>, Status)>, ds: Seq<Seq<char>>, n: int, now: Seq<char>)
    requires
        0 <= n <= ds.len(),
        sweep(tv, fv, ds.take(n), now) is None,
    ensures
        sweep(tv, fv, ds, now) is None,
    decreases ds.len() - n,
{
    if n < ds.len() {
        assert(ds.take(n + 1).drop_last() == ds.take(n));
        lemma_sweep_none(tv, fv, ds, n + 1, now);
    } else {
        assert(ds.take(n) == ds);
    }
}

} // verus!
