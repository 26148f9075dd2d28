//! Renaming yaks: one pass that rewrites the subjects' ids and every
//! reference to them across the farm (parent, dependencies, title and body
//! mentions), matched as whole tokens.

use vstd::prelude::*;
use crate::text::{
    chars_of, string_of, same, seq_lt, lt, lemma_lt_trans, lemma_lt_irrefl, lines, lines_seq, join,
    join_seq, has_prefix, starts_with, slice,
};
use crate::model::{Status, Task, TaskView, tviews, strs, ostr};
use crate::refs::{ref_shape, has_ref_shape, renamed, pair_views, rewrite_from, rewrite, lookup_rename};
use crate::farm::{Farm, Change, ChangeView, changes_view, apply_change, apply_changes, sort_tasks};
use crate::farm::edit::same_frame;
use crate::store::layout::file_views;

verus! {

/// Outcome of a rename.
pub enum RenameOutcome {
    /// The rename was applied, or (when `plan.applied` is false) planned.
    Done(RenamePlan),
    /// No pair was given.
    NothingToRename,
    /// A requested old id names no task.
    NotFound(String),
    /// A target id already exists (and is not being vacated) or is
    /// requested twice.
    Collision(String),
    /// A target id is malformed or identical to its source.
    Invalid(String),
}

/// What a rename changed, or would change when `applied` is false.
pub struct RenamePlan {
    pub applied: bool,
    /// The subject renames, `(old, new)`, sorted.
    pub renames: Vec<(String, String)>,
    /// Every task file touched, in id order.
    pub edits: Vec<RenameEdit>,
}

/// One task file touched by a rename.
pub struct RenameEdit {
    /// The file's current id.
    pub id: String,
    /// Set when this file is itself a rename subject.
    pub new_id: Option<String>,
    /// Which reference surfaces changed: any of `parent`, `depends_on`,
    /// `title`, `body`.
    pub fields: Vec<&'static str>,
    /// 1-based body line numbers whose mentions were rewritten.
    pub body_lines: Vec<usize>,
}

/// Why a rename is refused.
pub enum Refusal {
    NotFound(Seq<char>),
    Invalid(Seq<char>),
    Collision(Seq<char>),
    Nothing,
}

/// Some earlier pair (before `n`) has this target.
pub open spec fn target_before(pv: Seq<(Seq<char>, Seq<char>)>, w: Seq<char>, n: int) -> bool {
    exists|j: int| 0 <= j < n && #[trigger] pv[j].1 == w
}

/// Some earlier pair (before `n`) renames this id.
pub open spec fn old_before(pv: Seq<(Seq<char>, Seq<char>)>, o: Seq<char>, n: int) -> bool {
    exists|j: int| 0 <= j < n && #[trigger] pv[j].0 == o
}

/// The first pair (among the first `n`) that is refused on its own.
pub open spec fn pair_refusal(ids: Seq<Seq<char>>, pv: Seq<(Seq<char>, Seq<char>)>, n: int) -> Option<Refusal>
    decreases n,
{
    if n <= 0 || n > pv.len() {
        None
    } else {
        match pair_refusal(ids, pv, n - 1) {
            Some(r) => Some(r),
            None => {
                let (o, w) = pv[n - 1];
                if !ids.contains(o) {
                    Some(Refusal::NotFound(o))
                } else if w == o || !ref_shape(w) {
                    Some(Refusal::Invalid(w))
                } else if target_before(pv, w, n - 1) || old_before(pv, o, n - 1) {
                    Some(Refusal::Collision(w))
                } else {
                    None
                }
            },
        }
    }
}

/// The first target (from pair `i` on) that names an existing task which is
/// not itself renamed away.
pub open spec fn clobber_from(ids: Seq<Seq<char>>, pv: Seq<(Seq<char>, Seq<char>)>, i: int) -> Option<Seq<char>>
    decreases pv.len() - i,
{
    if i < 0 || i >= pv.len() {
        None
    } else if ids.contains(pv[i].1) && !old_before(pv, pv[i].1, pv.len() as int) {
        Some(pv[i].1)
    } else {
        clobber_from(ids, pv, i + 1)
    }
}

/// Why the rename of `pv` over tasks with ids `ids` is refused, if it is.
pub open spec fn refusal(ids: Seq<Seq<char>>, pv: Seq<(Seq<char>, Seq<char>)>) -> Option<Refusal> {
    match pair_refusal(ids, pv, pv.len() as int) {
        Some(r) => Some(r),
        None => if pv.len() == 0 {
            Some(Refusal::Nothing)
        } else {
            match clobber_from(ids, pv, 0) {
                Some(w) => Some(Refusal::Collision(w)),
                None => None,
            }
        },
    }
}

/// An id after the rename.
pub open spec fn mapped(pv: Seq<(Seq<char>, Seq<char>)>, id: Seq<char>) -> Seq<char> {
    match renamed(pv, id) {
        Some(n) => n,
        None => id,
    }
}

/// The 1-based numbers of the lines among the first `n` that a rewrite
/// changes.
pub open spec fn changed_lines(ls: Seq<Seq<char>>, pv: Seq<(Seq<char>, Seq<char>)>, n: int) -> Seq<nat>
    decreases n,
{
    if n <= 0 || n > ls.len() {
        seq![]
    } else {
        changed_lines(ls, pv, n - 1) + if rewrite_from(ls[n - 1], 0, pv).1 {
            seq![n as nat]
        } else {
            seq![]
        }
    }
}

pub open spec fn parent_moves(t: TaskView, pv: Seq<(Seq<char>, Seq<char>)>) -> bool {
    t.parent matches Some(p) && renamed(pv, p) is Some
}

pub open spec fn deps_move(t: TaskView, pv: Seq<(Seq<char>, Seq<char>)>) -> bool {
    exists|k: int| 0 <= k < t.depends_on.len() && renamed(pv, #[trigger] t.depends_on[k]) is Some
}

/// The reference surfaces of `t` a rename changes, in order.
pub open spec fn edit_fields(t: TaskView, pv: Seq<(Seq<char>, Seq<char>)>) -> Seq<Seq<char>> {
    let ls = lines_seq(t.body);
    (if parent_moves(t, pv) { seq!["parent"@] } else { seq![] }) + (if deps_move(t, pv) {
        seq!["depends_on"@]
    } else {
        seq![]
    }) + (if rewrite_from(t.title, 0, pv).1 { seq!["title"@] } else { seq![] }) + (if changed_lines(
        ls,
        pv,
        ls.len() as int,
    ).len() > 0 {
        seq!["body"@]
    } else {
        seq![]
    })
}

/// A rename touches `t`: it is a subject, or a reference in it moves.
pub open spec fn touched(t: TaskView, pv: Seq<(Seq<char>, Seq<char>)>) -> bool {
    renamed(pv, t.id) is Some || edit_fields(t, pv).len() > 0
}

/// `t` as the rename rewrites it.
pub open spec fn next_task(t: TaskView, pv: Seq<(Seq<char>, Seq<char>)>) -> TaskView {
    let ls = lines_seq(t.body);
    TaskView {
        id: mapped(pv, t.id),
        parent: if parent_moves(t, pv) {
            Some(mapped(pv, t.parent->0))
        } else {
            t.parent
        },
        depends_on: if deps_move(t, pv) {
            t.depends_on.map_values(|d: Seq<char>| mapped(pv, d))
        } else {
            t.depends_on
        },
        title: if rewrite_from(t.title, 0, pv).1 {
            rewrite_from(t.title, 0, pv).0
        } else {
            t.title
        },
        body: if changed_lines(ls, pv, ls.len() as int).len() > 0 {
            join_seq(ls.map_values(|l: Seq<char>| rewrite_from(l, 0, pv).0), seq!['\n'])
        } else {
            t.body
        },
        ..t
    }
}

pub open spec fn edit_view(e: RenameEdit) -> (Seq<char>, Option<Seq<char>>, Seq<Seq<char>>, Seq<nat>) {
    (e.id@, ostr(e.new_id), e.fields@.map_values(|f: &'static str| f@), e.body_lines@.map_values(|n: usize| n as nat))
}

/// The edit entry the rename reports for `t`.
pub open spec fn plan_entry(t: TaskView, pv: Seq<(Seq<char>, Seq<char>)>) -> (Seq<char>, Option<Seq<char>>, Seq<Seq<char>>, Seq<nat>) {
    (t.id, renamed(pv, t.id), edit_fields(t, pv), changed_lines(lines_seq(t.body), pv, lines_seq(t.body).len() as int))
}

/// The writes a real rename owes for the first `n` tasks: each touched
/// task rewritten.
pub open spec fn rename_saves(tv: Seq<TaskView>, pv: Seq<(Seq<char>, Seq<char>)>, n: int) -> Seq<ChangeView>
    decreases n,
{
    if n <= 0 || n > tv.len() {
        seq![]
    } else {
        rename_saves(tv, pv, n - 1) + if touched(tv[n - 1], pv) {
            seq![ChangeView::Save(next_task(tv[n - 1], pv))]
        } else {
            seq![]
        }
    }
}

/// Then each subject's old file removed, unless its id is itself a target.
pub open spec fn rename_removals(tv: Seq<TaskView>, pv: Seq<(Seq<char>, Seq<char>)>, n: int) -> Seq<ChangeView>
    decreases n,
{
    if n <= 0 || n > tv.len() {
        seq![]
    } else {
        let t = tv[n - 1];
        rename_removals(tv, pv, n - 1) + if renamed(pv, t.id) is Some && !target_before(
            pv,
            t.id,
            pv.len() as int,
        ) {
            seq![ChangeView::Remove(t.status, t.id)]
        } else {
            seq![]
        }
    }
}

/// Pairs ordered by old id.
pub open spec fn pairs_sorted(pv: Seq<(Seq<char>, Seq<char>)>) -> bool {
    forall|i: int, j: int| 0 <= i < j < pv.len() ==> !seq_lt(#[trigger] pv[j].0, #[trigger] pv[i].0)
}

// ---------------------------------------------------------------------------
// executable pieces
// ---------------------------------------------------------------------------

fn has_target(pairs: &Vec<(String, String)>, w: &String, n: usize) -> (b: bool)
    requires
        n <= pairs.len(),
    ensures
        b == target_before(pair_views(pairs@), w@, n as int),
{
    let ghost pv = pair_views(pairs@);
    let mut j: usize = 0;
    while j < n
        invariant
            j <= n <= pairs.len(),
            pv == pair_views(pairs@),
            forall|m: int| 0 <= m < j ==> pv[m].1 != w@,
        decreases n - j,
    {
        if same(pairs[j].1.as_str(), w.as_str()) {
            assert(pv[j as int].1 == w@);
            return true;
        }
        assert(pv[j as int].1 != w@);
        j += 1;
    }
    false
}

fn has_old(pairs: &Vec<(String, String)>, o: &String, n: usize) -> (b: bool)
    requires
        n <= pairs.len(),
    ensures
        b == old_before(pair_views(pairs@), o@, n as int),
{
    let ghost pv = pair_views(pairs@);
    let mut j: usize = 0;
    while j < n
        invariant
            j <= n <= pairs.len(),
            pv == pair_views(pairs@),
            forall|m: int| 0 <= m < j ==> pv[m].0 != o@,
        decreases n - j,
    {
        if same(pairs[j].0.as_str(), o.as_str()) {
            assert(pv[j as int].0 == o@);
            return true;
        }
        assert(pv[j as int].0 != o@);
        j += 1;
    }
    false
}

fn ids_contain(ids: &Vec<String>, s: &String) -> (b: bool)
    ensures
        b == strs(ids@).contains(s@),
{
    crate::filter::has_string(ids, s)
}

proof fn lemma_refusal_sticks(ids: Seq<Seq<char>>, pv: Seq<(Seq<char>, Seq<char>)>, k: int, n: int)
    requires
        0 <= k <= n <= pv.len(),
        pair_refusal(ids, pv, k) is Some,
    ensures
        pair_refusal(ids, pv, n) == pair_refusal(ids, pv, k),
    decreases n - k,
{
    if n > k {
        lemma_refusal_sticks(ids, pv, k, n - 1);
    }
}

/// The refusal for a rename, as an outcome; `None` when it may proceed.
fn check_pairs(ids: &Vec<String>, pairs: &Vec<(String, String)>) -> (r: Option<RenameOutcome>)
    ensures
        match refusal(strs(ids@), pair_views(pairs@)) {
            None => r is None,
            Some(Refusal::NotFound(o)) => r matches Some(RenameOutcome::NotFound(x)) && x@ == o,
            Some(Refusal::Invalid(w)) => r matches Some(RenameOutcome::Invalid(x)) && x@ == w,
            Some(Refusal::Collision(w)) => r matches Some(RenameOutcome::Collision(x)) && x@ == w,
            Some(Refusal::Nothing) => r matches Some(RenameOutcome::NothingToRename),
        },
{
    let ghost pv = pair_views(pairs@);
    let ghost iv = strs(ids@);
    let mut i: usize = 0;
    while i < pairs.len()
        invariant
            i <= pairs.len(),
            pv == pair_views(pairs@),
            iv == strs(ids@),
            pair_refusal(iv, pv, i as int) is None,
        decreases pairs.len() - i,
    {
        let o = &pairs[i].0;
        let w = &pairs[i].1;
        assert(pv[i as int] == (o@, w@));
        if !ids_contain(ids, o) {
            proof {
                lemma_refusal_sticks(iv, pv, i + 1, pv.len() as int);
            }
            return Some(RenameOutcome::NotFound(o.clone()));
        }
        if same(w.as_str(), o.as_str()) || !has_ref_shape(w.as_str()) {
            proof {
                lemma_refusal_sticks(iv, pv, i + 1, pv.len() as int);
            }
            return Some(RenameOutcome::Invalid(w.clone()));
        }
        if has_target(pairs, w, i) || has_old(pairs, o, i) {
            proof {
                lemma_refusal_sticks(iv, pv, i + 1, pv.len() as int);
            }
            return Some(RenameOutcome::Collision(w.clone()));
        }
        i += 1;
    }
    if pairs.len() == 0 {
        return Some(RenameOutcome::NothingToRename);
    }
    let mut k: usize = 0;
    while k < pairs.len()
        invariant
            k <= pairs.len(),
            pv == pair_views(pairs@),
            iv == strs(ids@),
            pairs.len() > 0,
            pair_refusal(iv, pv, pv.len() as int) is None,
            clobber_from(iv, pv, 0) == clobber_from(iv, pv, k as int),
        decreases pairs.len() - k,
    {
        let w = &pairs[k].1;
        assert(pv[k as int].1 == w@);
        if ids_contain(ids, w) && !has_old(pairs, w, pairs.len()) {
            return Some(RenameOutcome::Collision(w.clone()));
        }
        k += 1;
    }
    None
}

fn map_id(pairs: &Vec<(String, String)>, id: &String) -> (r: String)
    ensures
        r@ == mapped(pair_views(pairs@), id@),
{
    match lookup_rename(pairs, &chars_of(id.as_str())) {
        Some(n) => n,
        None => id.clone(),
    }
}

/// `t` as the rename rewrites it, and its edit entry.
fn rewrite_task(t: &Task, pairs: &Vec<(String, String)>) -> (r: (Task, RenameEdit))
    ensures
        r.0@ == next_task(t@, pair_views(pairs@)),
        edit_view(r.1) == plan_entry(t@, pair_views(pairs@)),
{
    let ghost pv = pair_views(pairs@);
    let mut next = t.duplicate();
    let new_id = lookup_rename(pairs, &chars_of(t.id.as_str()));
    next.id = map_id(pairs, &t.id);
    let mut fields: Vec<&'static str> = Vec::new();
    let mut body_lines: Vec<usize> = Vec::new();
    // parent
    match &t.parent {
        Some(p) => {
            match lookup_rename(pairs, &chars_of(p.as_str())) {
                Some(np) => {
                    next.parent = Some(np);
                    fields.push("parent");
                },
                None => {},
            }
        },
        None => {},
    }
    let ghost f1 = fields@.map_values(|f: &'static str| f@);
    assert(f1 =~= if parent_moves(t@, pv) { seq!["parent"@] } else { seq![] });
    // dependencies
    let mut any = false;
    let mut deps: Vec<String> = Vec::new();
    let mut j: usize = 0;
    while j < t.depends_on.len()
        invariant
            j <= t.depends_on.len(),
            pv == pair_views(pairs@),
            strs(deps@) == t@.depends_on.take(j as int).map_values(|d: Seq<char>| mapped(pv, d)),
            any == exists|k: int| 0 <= k < j && renamed(pv, #[trigger] t@.depends_on[k]) is Some,
        decreases t.depends_on.len() - j,
    {
        let d = &t.depends_on[j];
        assert(t@.depends_on[j as int] == d@);
        if lookup_rename(pairs, &chars_of(d.as_str())).is_some() {
            any = true;
        }
        let ghost before = deps@;
        deps.push(map_id(pairs, d));
        proof {
            assert(strs(deps@) =~= strs(before).push(mapped(pv, d@)));
            assert(t@.depends_on.take(j + 1) == t@.depends_on.take(j as int).push(d@));
            assert(t@.depends_on.take(j + 1).map_values(|d: Seq<char>| mapped(pv, d)) =~= t@.depends_on.take(
                j as int,
            ).map_values(|d: Seq<char>| mapped(pv, d)).push(mapped(pv, d@)));
        }
        j += 1;
    }
    assert(t@.depends_on.take(t.depends_on.len() as int) == t@.depends_on);
    if any {
        next.depends_on = deps;
        fields.push("depends_on");
    }
    let ghost f2 = fields@.map_values(|f: &'static str| f@);
    assert(f2 =~= f1 + if deps_move(t@, pv) { seq!["depends_on"@] } else { seq![] });
    // title
    let (title, tchanged) = rewrite(t.title.as_str(), pairs);
    if tchanged {
        next.title = title;
        fields.push("title");
    }
    let ghost f3 = fields@.map_values(|f: &'static str| f@);
    assert(f3 =~= f2 + if rewrite_from(t@.title, 0, pv).1 { seq!["title"@] } else { seq![] });
    // body, line by line
    let ls = lines(&chars_of(t.body.as_str()));
    let ghost lv = lines_seq(t@.body);
    let mut out_lines: Vec<Vec<char>> = Vec::new();
    let mut n: usize = 0;
    while n < ls.len()
        invariant
            n <= ls.len(),
            pv == pair_views(pairs@),
            ls@.map_values(|p: Vec<char>| p@) == lv,
            out_lines@.map_values(|p: Vec<char>| p@) == lv.take(n as int).map_values(
                |l: Seq<char>| rewrite_from(l, 0, pv).0,
            ),
            body_lines@.map_values(|k: usize| k as nat) == changed_lines(lv, pv, n as int),
        decreases ls.len() - n,
    {
        let (nl, ch) = rewrite(string_of(&ls[n]).as_str(), pairs);
        assert(lv[n as int] == ls@[n as int]@);
        if ch {
            let ghost before = body_lines@;
            body_lines.push(n + 1);
            assert(body_lines@.map_values(|k: usize| k as nat) =~= before.map_values(|k: usize| k as nat).push((n + 1) as nat));
        }
        let ghost before_o = out_lines@;
        out_lines.push(chars_of(nl.as_str()));
        proof {
            assert(out_lines@.map_values(|p: Vec<char>| p@) =~= before_o.map_values(|p: Vec<char>| p@).push(nl@));
            assert(lv.take(n + 1) == lv.take(n as int).push(lv[n as int]));
            assert(lv.take(n + 1).map_values(|l: Seq<char>| rewrite_from(l, 0, pv).0) =~= lv.take(
                n as int,
            ).map_values(|l: Seq<char>| rewrite_from(l, 0, pv).0).push(rewrite_from(lv[n as int], 0, pv).0));
        }
        n += 1;
    }
    assert(lv.take(ls.len() as int) == lv);
    if body_lines.len() > 0 {
        let mut nl: Vec<char> = Vec::new();
        nl.push('\n');
        next.body = string_of(&join(&out_lines, &nl));
        fields.push("body");
    }
    let ghost f4 = fields@.map_values(|f: &'static str| f@);
    assert(f4 =~= f3 + if changed_lines(lv, pv, lv.len() as int).len() > 0 { seq!["body"@] } else { seq![] });
    proof {
        reveal_strlit("parent");
        reveal_strlit("depends_on");
        reveal_strlit("title");
        reveal_strlit("body");
        assert(edit_fields(t@, pv) =~= f4);
        assert(next@ == next_task(t@, pv));
    }
    let edit = RenameEdit { id: t.id.clone(), new_id, fields, body_lines };
    (next, edit)
}

fn sort_pairs(v: &Vec<(String, String)>) -> (r: Vec<(String, String)>)
    ensures
        pairs_sorted(pair_views(r@)),
        pair_views(r@).to_multiset() == pair_views(v@).to_multiset(),
{
    let ghost orig = pair_views(v@);
    let mut r: Vec<(String, String)> = Vec::new();
    let mut i: usize = 0;
    proof {
        broadcast use vstd::seq_lib::group_to_multiset_ensures;
        assert(orig.take(0) =~= Seq::<(Seq<char>, Seq<char>)>::empty());
        assert(pair_views(r@) =~= Seq::<(Seq<char>, Seq<char>)>::empty());
    }
    while i < v.len()
        invariant
            i <= v.len(),
            orig == pair_views(v@),
            pairs_sorted(pair_views(r@)),
            pair_views(r@).to_multiset() == orig.take(i as int).to_multiset(),
        decreases v.len() - i,
    {
        let x = (v[i].0.clone(), v[i].1.clone());
        let ghost xv = (x.0@, x.1@);
        assert(xv == orig[i as int]);
        let xc = chars_of(x.0.as_str());
        let mut k: usize = 0;
        while k < r.len() && !lt(&xc, &chars_of(r[k].0.as_str()))
            invariant
                k <= r.len(),
                xc@ == xv.0,
                forall|m: int| 0 <= m < k ==> !seq_lt(xv.0, pair_views(r@)[m].0),
            decreases r.len() - k,
        {
            k += 1;
        }
        let ghost prev = pair_views(r@);
        r.insert(k, x);
        proof {
            broadcast use vstd::seq_lib::group_to_multiset_ensures;
            let after = pair_views(r@);
            assert(after =~= prev.insert(k as int, xv));
            prev.insert_ensures(k as int, xv);
            assert(after.remove(k as int) =~= prev);
            assert(after.contains(xv)) by {
                assert(after[k as int] == xv);
            }
            assert(after.to_multiset().remove(xv) == prev.to_multiset());
            assert(after.to_multiset() =~= prev.to_multiset().insert(xv));
            assert(orig.take(i + 1) == orig.take(i as int).push(xv));
            assert forall|a: int, b: int| 0 <= a < b < after.len() implies !seq_lt(
                #[trigger] after[b].0,
                #[trigger] after[a].0,
            ) by {
                if a < k && b == k {
                    assert(!seq_lt(xv.0, prev[a].0));
                } else if a == k && b > k {
                    assert(after[b] == prev[b - 1]);
                    if k < prev.len() {
                        assert(seq_lt(xv.0, prev[k as int].0));
                        if b - 1 > k {
                            assert(!seq_lt(prev[b - 1].0, prev[k as int].0));
                        }
                        if seq_lt(prev[b - 1].0, xv.0) {
                            lemma_lt_trans(prev[b - 1].0, xv.0, prev[k as int].0);
                            lemma_lt_irrefl(prev[k as int].0);
                        }
                    }
                } else {
                    let a2 = if a < k { a } else { a - 1 };
                    let b2 = if b < k { b } else { b - 1 };
                    assert(after[a] == prev[a2]);
                    assert(after[b] == prev[b2]);
                }
            }
        }
        i += 1;
    }
    assert(orig.take(v.len() as int) == orig);
    r
}

/// A task as it stands after the rename.
pub open spec fn after_rename(t: TaskView, pv: Seq<(Seq<char>, Seq<char>)>) -> TaskView {
    if touched(t, pv) {
        next_task(t, pv)
    } else {
        t
    }
}

/// What a rename of `pv` over the farm `before` does, leaving `after` and
/// answering `r`.
pub open spec fn renamed_as(before: Farm, after: Farm, pv: Seq<(Seq<char>, Seq<char>)>, dry_run: bool, r: RenameOutcome) -> bool {
    let tv = tviews(before.tasks@);
    let unchanged = after.tasks@ == before.tasks@ && after.files@
        == before.files@ && after.changes@ == before.changes@;
    match refusal(tv.map_values(|t: TaskView| t.id), pv) {
        Some(Refusal::NotFound(o)) => r matches RenameOutcome::NotFound(x) && x@ == o && unchanged,
        Some(Refusal::Invalid(w)) => r matches RenameOutcome::Invalid(x) && x@ == w && unchanged,
        Some(Refusal::Collision(w)) => r matches RenameOutcome::Collision(x) && x@ == w && unchanged,
        Some(Refusal::Nothing) => r matches RenameOutcome::NothingToRename && unchanged,
        None => {
            let saves = rename_saves(tv, pv, tv.len() as int);
            let removals = rename_removals(tv, pv, tv.len() as int);
            &&& r matches RenameOutcome::Done(plan) && {
                &&& plan.applied == !dry_run
                &&& plan.edits@.map_values(|e: RenameEdit| edit_view(e)) == tv.filter(
                    |t: TaskView| touched(t, pv),
                ).map_values(|t: TaskView| plan_entry(t, pv))
                &&& pairs_sorted(pair_views(plan.renames@))
                &&& pair_views(plan.renames@).to_multiset() == pv.to_multiset()
            }
            &&& dry_run ==> unchanged
            &&& !dry_run ==> {
                &&& changes_view(after.changes@) == changes_view(before.changes@)
                    + saves + removals
                &&& file_views(after.files@) == apply_changes(
                    file_views(before.files@),
                    saves + removals,
                )
                &&& tviews(after.tasks@).to_multiset() == tv.map_values(
                    |t: TaskView| after_rename(t, pv),
                ).to_multiset()
            }
        },
    }
            }

impl Farm {
    /// Owe one write, and keep the file list in step with it.
    pub fn record(&mut self, c: Change)
        ensures
            same_frame(*final(self), *old(self)),
            final(self).tasks@ == old(self).tasks@,
            changes_view(final(self).changes@) == changes_view(old(self).changes@).push(c@),
            file_views(final(self).files@) == apply_change(file_views(old(self).files@), c@),
            c is Config ==> final(self).files@ == old(self).files@,
    {
        let ghost fv = file_views(self.files@);
        match &c {
            Change::Save(t) => {
    if !crate::store::layout::has_file(&self.files, t.id.as_str(), t.status) {
        self.files.push((t.id.clone(), t.status));
        assert(file_views(self.files@) =~= fv.push((t.id@, t.status)));
    }
            },
            Change::Remove(st, id) => {
    let ghost keep = |e: (Seq<char>, Status)| e != (id@, *st);
    let mut kept: Vec<(String, Status)> = Vec::new();
    let mut i: usize = 0;
    assert(fv.take(0).filter(keep) =~= Seq::<(Seq<char>, Status)>::empty());
    while i < self.files.len()
        invariant
            i <= self.files.len(),
            fv == file_views(self.files@),
            keep == (|e: (Seq<char>, Status)| e != (id@, *st)),
            file_views(kept@) == fv.take(i as int).filter(keep),
        decreases self.files.len() - i,
    {
        proof {
            assert(fv.take(i + 1) == fv.take(i as int).push(fv[i as int]));
            fv.take(i as int).lemma_filter_push(fv[i as int], keep);
        }
        if !(self.files[i].1 == *st && same(self.files[i].0.as_str(), id.as_str())) {
            let ghost before = kept@;
            kept.push((self.files[i].0.clone(), self.files[i].1));
            assert(file_views(kept@) =~= file_views(before).push(fv[i as int]));
        }
        i += 1;
    }
    assert(fv.take(self.files.len() as int) == fv);
    self.files = kept;
            },
            Change::Config(_) => {},
        }
        let ghost pc = changes_view(self.changes@);
        let ghost cv = c@;
        self.changes.push(c);
        assert(changes_view(self.changes@) =~= pc.push(cv));
    }

    /// Rename one or more yaks in a single pass, rewriting every reference
    /// to them across the farm: each subject's id (and file), and the
    /// `parent`, `depends_on`, title and body mentions of every task that
    /// points at one. References are matched as whole tokens, so lookalike
    /// prose is never touched. With `dry_run` nothing changes and the plan
    /// says what would.
    pub fn rename_many(&mut self, pairs: &Vec<(String, String)>, dry_run: bool) -> (r: RenameOutcome)
        requires
            old(self).wf(),
        ensures
            final(self).wf(),
            same_frame(*final(self), *old(self)),
            renamed_as(*old(self), *final(self), pair_views(pairs@), dry_run, r),
    {
        let ghost tv = tviews(self.tasks@);
        let ghost pv = pair_views(pairs@);
        let ids = crate::farm::links::task_ids(&self.tasks);
        match check_pairs(&ids, pairs) {
            Some(o) => return o,
            None => {},
        }
        let ghost tpred = |t: TaskView| touched(t, pv);
        let ghost tmap = |t: TaskView| plan_entry(t, pv);
        let ghost amap = |t: TaskView| after_rename(t, pv);
        let mut edits: Vec<RenameEdit> = Vec::new();
        let mut saves: Vec<Task> = Vec::new();
        let mut removals: Vec<(Status, String)> = Vec::new();
        let mut all_next: Vec<Task> = Vec::new();
        let mut i: usize = 0;
        proof {
            assert(tv.take(0).filter(tpred).map_values(tmap) =~= Seq::empty());
            assert(tv.take(0).map_values(amap) =~= Seq::empty());
        }
        while i < self.tasks.len()
            invariant
    i <= self.tasks.len(),
    tv == tviews(self.tasks@),
    pv == pair_views(pairs@),
    tpred == (|t: TaskView| touched(t, pv)),
    tmap == (|t: TaskView| plan_entry(t, pv)),
    amap == (|t: TaskView| after_rename(t, pv)),
    edits@.map_values(|e: RenameEdit| edit_view(e)) == tv.take(i as int).filter(tpred).map_values(tmap),
    saves@.map_values(|t: Task| ChangeView::Save(t@)) == rename_saves(tv, pv, i as int),
    removals@.map_values(|p: (Status, String)| ChangeView::Remove(p.0, p.1@)) == rename_removals(tv, pv, i as int),
    tviews(all_next@) == tv.take(i as int).map_values(amap),
            decreases self.tasks.len() - i,
        {
            let t = &self.tasks[i];
            let (next, edit) = rewrite_task(t, pairs);
            let is_touched = edit.new_id.is_some() || edit.fields.len() > 0;
            proof {
    assert(tv[i as int] == t@);
    assert(is_touched == touched(t@, pv));
    assert(tv.take(i + 1) == tv.take(i as int).push(t@));
    tv.take(i as int).lemma_filter_push(t@, tpred);
            }
            let ghost nv = next@;
            if is_touched {
    let subject = edit.new_id.is_some();
    let ghost before_e = edits@;
    edits.push(edit);
    assert(edits@.map_values(|e: RenameEdit| edit_view(e)) =~= before_e.map_values(|e: RenameEdit| edit_view(e)).push(tmap(t@)));
    assert(tv.take(i as int).filter(tpred).push(t@).map_values(tmap) =~= tv.take(i as int).filter(tpred).map_values(tmap).push(tmap(t@)));
    let ghost before_s = saves@;
    saves.push(next.duplicate());
    assert(saves@.map_values(|t: Task| ChangeView::Save(t@)) =~= before_s.map_values(|t: Task| ChangeView::Save(t@)).push(ChangeView::Save(nv)));
    let ghost before_a = all_next@;
    all_next.push(next);
    assert(tviews(all_next@) =~= tviews(before_a).push(nv));
    if subject && !has_target(pairs, &t.id, pairs.len()) {
        let ghost before_r = removals@;
        removals.push((t.status, t.id.clone()));
        assert(removals@.map_values(|p: (Status, String)| ChangeView::Remove(p.0, p.1@)) =~= before_r.map_values(|p: (Status, String)| ChangeView::Remove(p.0, p.1@)).push(ChangeView::Remove(t@.status, t@.id)));
    }
            } else {
    let ghost before_a = all_next@;
    all_next.push(t.duplicate());
    assert(tviews(all_next@) =~= tviews(before_a).push(t@));
            }
            assert(tv.take(i + 1).map_values(amap) =~= tv.take(i as int).map_values(amap).push(amap(t@)));
            i += 1;
        }
        assert(tv.take(self.tasks.len() as int) == tv);
        let renames = sort_pairs(pairs);
        if !dry_run {
            let ghost c0 = changes_view(self.changes@);
            let ghost f0 = file_views(self.files@);
            let ghost sv = saves@.map_values(|t: Task| ChangeView::Save(t@));
            let ghost rv = removals@.map_values(|p: (Status, String)| ChangeView::Remove(p.0, p.1@));
            let mut j: usize = 0;
            assert(sv.take(0) =~= Seq::<ChangeView>::empty());
            while j < saves.len()
    invariant
        j <= saves.len(),
        sv == saves@.map_values(|t: Task| ChangeView::Save(t@)),
        changes_view(self.changes@) == c0 + sv.take(j as int),
        file_views(self.files@) == apply_changes(f0, sv.take(j as int)),
        same_frame(*self, *old(self)),
        self.tasks@ == old(self).tasks@,
    decreases saves.len() - j,
            {
    let c = Change::Save(saves[j].duplicate());
    proof {
        assert(c@ == sv[j as int]);
        assert(sv.take(j + 1) == sv.take(j as int).push(sv[j as int]));
        assert(sv.take(j + 1).drop_last() == sv.take(j as int));
    }
    self.record(c);
    assert(c0 + sv.take(j + 1) =~= (c0 + sv.take(j as int)).push(sv[j as int]));
    j += 1;
            }
            assert(sv.take(saves.len() as int) == sv);
            let mut j: usize = 0;
            assert(rv.take(0) =~= Seq::<ChangeView>::empty());
            assert(sv + rv.take(0) == sv);
            while j < removals.len()
    invariant
        j <= removals.len(),
        rv == removals@.map_values(|p: (Status, String)| ChangeView::Remove(p.0, p.1@)),
        changes_view(self.changes@) == c0 + sv + rv.take(j as int),
        file_views(self.files@) == apply_changes(f0, sv + rv.take(j as int)),
        same_frame(*self, *old(self)),
        self.tasks@ == old(self).tasks@,
    decreases removals.len() - j,
            {
    let c = Change::Remove(removals[j].0, removals[j].1.clone());
    proof {
        assert(c@ == rv[j as int]);
        assert(rv.take(j + 1) == rv.take(j as int).push(rv[j as int]));
        assert((sv + rv.take(j + 1)).drop_last() =~= sv + rv.take(j as int));
        assert((sv + rv.take(j + 1)).last() == rv[j as int]);
    }
    self.record(c);
    assert(c0 + sv + rv.take(j + 1) =~= (c0 + sv + rv.take(j as int)).push(rv[j as int]));
    j += 1;
            }
            assert(rv.take(removals.len() as int) == rv);
            self.tasks = sort_tasks(all_next, false);
        }
        RenameOutcome::Done(RenamePlan { applied: !dry_run, renames, edits })
    }
}

/// The pairs of a herd rename: every task `<old>-<tail>` to `<new>-<tail>`,
/// in task order.
pub open spec fn prefix_pairs_spec(tv: Seq<TaskView>, old: Seq<char>, new: Seq<char>) -> Seq<(Seq<char>, Seq<char>)> {
    tv.filter(|t: TaskView| starts_with(t.id, old + seq!['-'])).map_values(
        |t: TaskView| (t.id, new + seq!['-'] + t.id.skip((old.len() + 1) as int)),
    )
}

/// After a real herd rename: the renamed farm with the new config written.
pub open spec fn final_ok_done(f: Farm, mid: Farm, text: Seq<char>) -> bool {
    &&& f.tasks@ == mid.tasks@
    &&& f.files@ == mid.files@
    &&& changes_view(f.changes@) == changes_view(mid.changes@).push(ChangeView::Config(text))
    &&& f.config_text@ == text
    &&& f.config@ == crate::store::config::parse_config_spec(text)
}

impl Farm {
    /// Rename one yak (see [`Farm::rename_many`]).
    pub fn rename(&mut self, from: &str, to: &str, dry_run: bool) -> (r: RenameOutcome)
        requires
            old(self).wf(),
        ensures
            final(self).wf(),
            same_frame(*final(self), *old(self)),
            renamed_as(*old(self), *final(self), seq![(from@, to@)], dry_run, r),
    {
        let mut pairs: Vec<(String, String)> = Vec::new();
        pairs.push((crate::text::owned(from), crate::text::owned(to)));
        assert(pair_views(pairs@) =~= seq![(from@, to@)]);
        self.rename_many(&pairs, dry_run)
    }

    /// The pairs a herd rename from `old` to `new` asks for.
    pub fn prefix_pairs(&self, from: &str, to: &str) -> (r: Vec<(String, String)>)
        ensures
            pair_views(r@) == prefix_pairs_spec(tviews(self.tasks@), from@, to@),
    {
        let ghost tv = tviews(self.tasks@);
        let mut marker = chars_of(from);
        marker.push('-');
        let ghost mk = from@ + seq!['-'];
        assert(marker@ =~= mk);
        let ghost p = |t: TaskView| starts_with(t.id, mk);
        let ghost f = |t: TaskView| (t.id, to@ + seq!['-'] + t.id.skip((from@.len() + 1) as int));
        let mut r: Vec<(String, String)> = Vec::new();
        let mut i: usize = 0;
        assert(tv.take(0).filter(p).map_values(f) =~= Seq::empty());
        while i < self.tasks.len()
            invariant
                i <= self.tasks.len(),
                tv == tviews(self.tasks@),
                marker@ == mk,
                mk == from@ + seq!['-'],
                p == (|t: TaskView| starts_with(t.id, mk)),
                f == (|t: TaskView| (t.id, to@ + seq!['-'] + t.id.skip((from@.len() + 1) as int))),
                pair_views(r@) == tv.take(i as int).filter(p).map_values(f),
            decreases self.tasks.len() - i,
        {
            let id = chars_of(self.tasks[i].id.as_str());
            proof {
                assert(tv[i as int].id == id@);
                assert(tv.take(i + 1) == tv.take(i as int).push(tv[i as int]));
                tv.take(i as int).lemma_filter_push(tv[i as int], p);
            }
            if has_prefix(&id, &marker) {
                let mut n = chars_of(to);
                n.push('-');
                let tail = slice(&id, marker.len(), id.len());
                crate::text::push_all(&mut n, &tail);
                let ghost before = r@;
                r.push((self.tasks[i].id.clone(), string_of(&n)));
                proof {
                    assert(tail@ == id@.skip((from@.len() + 1) as int));
                    assert(n@ =~= to@ + seq!['-'] + tail@);
                    assert(pair_views(r@) =~= pair_views(before).push(f(tv[i as int])));
                    assert(tv.take(i as int).filter(p).push(tv[i as int]).map_values(f) =~= tv.take(i as int).filter(p).map_values(f).push(f(tv[i as int])));
                }
            }
            i += 1;
        }
        assert(tv.take(self.tasks.len() as int) == tv);
        r
    }

    /// Migrate every yak `<old>-<tail>` to `<new>-<tail>`, rewriting all
    /// references; on a real successful run the farm's default herd becomes
    /// `new` too. The `<old>-` boundary means renaming `yaks` never touches a
    /// `yaksrs-` id.
    pub fn rename_prefix(&mut self, from: &str, to: &str, dry_run: bool) -> (r: RenameOutcome)
        requires
            old(self).wf(),
        ensures
            final(self).wf(),
            final(self).root == old(self).root,
            final(self).pointer_prefix == old(self).pointer_prefix,
            exists|mid: Farm| {
                &&& renamed_as(*old(self), mid, prefix_pairs_spec(tviews(old(self).tasks@), from@, to@), dry_run, r)
                &&& if !dry_run && r is Done {
                    final_ok_done(*final(self), mid, crate::store::config::with_prefix_spec(old(self).config_text@, to@))
                } else {
                    &&& final(self).tasks@ == mid.tasks@
                    &&& final(self).files@ == mid.files@
                    &&& final(self).changes@ == mid.changes@
                    &&& final(self).config == old(self).config
                    &&& final(self).config_text == old(self).config_text
                }
            },
    {
        let pairs = self.prefix_pairs(from, to);
        let r = self.rename_many(&pairs, dry_run);
        let ghost mid = *self;
        let done = match &r {
            RenameOutcome::Done(_) => true,
            _ => false,
        };
        if !dry_run && done {
            let text = crate::store::config::set_config_prefix(self.config_text.as_str(), to);
            let ghost tv = text@;
            self.config = crate::store::config::parse_config(text.as_str());
            self.config_text = crate::text::owned(text.as_str());
            self.record(Change::Config(text));
        }
        proof {
            let pv = prefix_pairs_spec(tviews(old(self).tasks@), from@, to@);
            assert(renamed_as(*old(self), mid, pv, dry_run, r));
            if !dry_run && r is Done {
                let text = crate::store::config::with_prefix_spec(old(self).config_text@, to@);
                assert(final_ok_done(*self, mid, text));
            } else {
                assert(self.tasks@ == mid.tasks@);
            }
        }
        r
    }
}

} // verus!
