//! Moving a yak between statuses, and editing its graph edges: dependencies
//! and parent.

use vstd::prelude::*;
use crate::text::{chars_of, string_of, same, push_str};
use crate::model::{Status, TaskView, tviews, strs, ostr, copy_opt};
use crate::filter::{has_string, descendant_ids, is_descendant};
use crate::store::layout::{file_views, find_task_file, file_status, MoveOutcome, DepOutcome, Reparent};
use crate::farm::{Farm, Change, ChangeView, changes_view};
use crate::farm::edit::{same_frame, index_with, load_index};
use crate::farm::query::{index_from, lemma_index_from, find_index};

verus! {

/// `t` moved to `dest` with `updated` bumped.
pub open spec fn moved(t: TaskView, dest: Status, now: Seq<char>) -> TaskView {
    TaskView { status: dest, updated: Some(now), ..t }
}

/// `t` with `dep` appended to its dependencies.
pub open spec fn with_dep(t: TaskView, dep: Seq<char>, now: Seq<char>) -> TaskView {
    TaskView { depends_on: t.depends_on.push(dep), updated: Some(now), ..t }
}

/// `t` without `dep` among its dependencies.
pub open spec fn without_dep(t: TaskView, dep: Seq<char>, now: Seq<char>) -> TaskView {
    TaskView { depends_on: t.depends_on.filter(not_dep(dep)), updated: Some(now), ..t }
}

/// Every dependency but `dep`.
pub open spec fn not_dep(dep: Seq<char>) -> spec_fn(Seq<char>) -> bool {
    |d: Seq<char>| d != dep
}

proof fn lemma_filter_absent(s: Seq<Seq<char>>, dep: Seq<char>)
    requires
        !s.contains(dep),
    ensures
        s.filter(not_dep(dep)) == s,
    decreases s.len(),
{
    if s.len() > 0 {
        let d = s.drop_last();
        assert(!d.contains(dep)) by {
            if d.contains(dep) {
                let j = choose|j: int| 0 <= j < d.len() && d[j] == dep;
                assert(s[j] == dep);
            }
        }
        lemma_filter_absent(d, dep);
        assert(s =~= d.push(s.last()));
        assert(s.last() != dep) by {
            assert(s[s.len() - 1] == s.last());
        }
        d.lemma_filter_push(s.last(), not_dep(dep));
    }
}

/// Removing a dependency just added gives the dependency list back as it
/// was; the added one is then gone, so a further removal finds nothing.
pub proof fn removing_an_added_dep_restores(t: TaskView, dep: Seq<char>, added: Seq<char>, removed: Seq<char>)
    requires
        !t.depends_on.contains(dep),
    ensures
        with_dep(t, dep, added).depends_on.contains(dep),
        without_dep(with_dep(t, dep, added), dep, removed).depends_on == t.depends_on,
        !without_dep(with_dep(t, dep, added), dep, removed).depends_on.contains(dep),
{
    let p = t.depends_on.push(dep);
    assert(p[p.len() - 1] == dep);
    lemma_filter_absent(t.depends_on, dep);
    t.depends_on.lemma_filter_push(dep, not_dep(dep));
    assert(p.filter(not_dep(dep)) == t.depends_on.filter(not_dep(dep)));
    assert(with_dep(t, dep, added).depends_on == p);
    assert(without_dep(with_dep(t, dep, added), dep, removed).depends_on == p.filter(not_dep(dep)));
}

/// `t` under `parent` (or top-level).
pub open spec fn reparented(t: TaskView, parent: Option<Seq<char>>, now: Seq<char>) -> TaskView {
    TaskView { parent: parent, updated: Some(now), ..t }
}

/// Why a reparent is refused, if it is.
pub open spec fn reparent_refusal(tv: Seq<TaskView>, id: Seq<char>, new_parent: Option<Seq<char>>) -> Option<Seq<char>> {
    match index_from(tv, id, 0) {
        None => Some("task "@ + id + " not found"@),
        Some(k) => match new_parent {
            Some(np) => if np == id {
                Some("cannot reparent a task under itself"@)
            } else if index_from(tv, np, 0) is None {
                Some("parent task "@ + np + " not found"@)
            } else if is_descendant(tv, id, np, true) {
                Some("cannot reparent under own descendant"@)
            } else if tv[k].parent == Some(np) {
                Some(id + " is already a child of "@ + np)
            } else {
                None
            },
            None => if tv[k].parent is None {
                Some(id + " is already a top-level task"@)
            } else {
                None
            },
        },
    }
}

/// The first index at or after `i` holding `e`.
pub open spec fn first_entry(fv: Seq<(Seq<char>, Status)>, e: (Seq<char>, Status), i: int) -> Option<int>
    decreases fv.len() - i,
{
    if i < 0 || i >= fv.len() {
        None
    } else if fv[i] == e {
        Some(i)
    } else {
        first_entry(fv, e, i + 1)
    }
}

/// What moving `id` to `dest` does to the snapshot: the outcome, the tasks,
/// the files and the writes owed; `None` when the task's file does not
/// parse.
pub open spec fn move_result(
    tv: Seq<TaskView>,
    fv: Seq<(Seq<char>, Status)>,
    id: Seq<char>,
    dest: Status,
    now: Seq<char>,
) -> Option<(MoveOutcome, Seq<TaskView>, Seq<(Seq<char>, Status)>, Seq<ChangeView>)> {
    match file_status(fv, id) {
        None => Some((MoveOutcome::NotFound, tv, fv, seq![])),
        Some(st) => if st == dest {
            Some((MoveOutcome::AlreadyThere, tv, fv, seq![]))
        } else {
            match index_with(tv, id, st, 0) {
                None => None,
                Some(k) => {
                    let t = moved(tv[k], dest, now);
                    Some((
                        MoveOutcome::Moved,
                        tv.update(k, t),
                        fv.update(first_entry(fv, (id, st), 0)->0, (id, dest)),
                        seq![ChangeView::Remove(st, id), ChangeView::Save(t)],
                    ))
                },
            }
        },
    }
}

fn find_file_entry(files: &Vec<(String, Status)>, id: &str, st: Status) -> (r: usize)
    requires
        file_views(files@).contains((id@, st)),
    ensures
        r < files.len(),
        file_views(files@)[r as int] == (id@, st),
        first_entry(file_views(files@), (id@, st), 0) == Some(r as int),
{
    let mut i: usize = 0;
    while i < files.len()
        invariant
            i <= files.len(),
            forall|j: int| 0 <= j < i ==> file_views(files@)[j] != (id@, st),
            file_views(files@).contains((id@, st)),
            first_entry(file_views(files@), (id@, st), 0) == first_entry(file_views(files@), (id@, st), i as int),
        decreases files.len() - i,
    {
        if files[i].1 == st && same(files[i].0.as_str(), id) {
            return i;
        }
        i += 1;
    }
    proof {
        let j = choose|j: int| 0 <= j < file_views(files@).len() && file_views(files@)[j] == (id@, st);
        assert(false);
    }
    0
}

fn contains_str(v: &Vec<String>, s: &str) -> (b: bool)
    ensures
        b == strs(v@).contains(s@),
{
    let mut i: usize = 0;
    while i < v.len()
        invariant
            i <= v.len(),
            forall|j: int| 0 <= j < i ==> strs(v@)[j] != s@,
        decreases v.len() - i,
    {
        if same(v[i].as_str(), s) {
            assert(strs(v@)[i as int] == s@);
            return true;
        }
        i += 1;
    }
    false
}

impl Farm {
    /// Move a task into `dest`: its file leaves its old status directory for
    /// the new one, rewritten with a bumped `updated`. A no-op when the task
    /// is already there. `Err` when the task's file does not parse.
    pub fn transition(&mut self, id: &str, dest: Status, now: &str) -> (r: Result<MoveOutcome, String>)
        requires
            old(self).wf(),
        ensures
            final(self).wf(),
            same_frame(*final(self), *old(self)),
            match move_result(tviews(old(self).tasks@), file_views(old(self).files@), id@, dest, now@) {
                None => r is Err && final(self).tasks@ == old(self).tasks@ && final(self).files@
                    == old(self).files@ && final(self).changes@ == old(self).changes@,
                Some(m) => {
                    &&& r == Ok::<MoveOutcome, String>(m.0)
                    &&& tviews(final(self).tasks@) == m.1
                    &&& file_views(final(self).files@) == m.2
                    &&& changes_view(final(self).changes@) == changes_view(old(self).changes@) + m.3
                    &&& (m.0 != MoveOutcome::Moved ==> final(self).tasks@ == old(self).tasks@
                        && final(self).files@ == old(self).files@ && final(self).changes@ == old(self).changes@)
                },
            },
    {
        let st = match find_task_file(&self.files, id) {
            Some(st) => st,
            None => return Ok(MoveOutcome::NotFound),
        };
        if st == dest {
            return Ok(MoveOutcome::AlreadyThere);
        }
        let k = match self.find_with_status(id, st) {
            Some(k) => k,
            None => {
                let mut msg = chars_of("cannot parse ");
                push_str(&mut msg, id);
                push_str(&mut msg, " before move");
                return Err(string_of(&msg));
            },
        };
        let j = find_file_entry(&self.files, id, st);
        let ghost pf = file_views(self.files@);
        self.files.set(j, (crate::text::owned(id), dest));
        assert(file_views(self.files@) =~= pf.update(j as int, (id@, dest)));
        let ghost pc = changes_view(self.changes@);
        self.changes.push(Change::Remove(st, crate::text::owned(id)));
        assert(changes_view(self.changes@) =~= pc.push(ChangeView::Remove(st, id@)));
        let mut task = self.tasks[k].duplicate();
        task.status = dest;
        task.updated = Some(crate::text::owned(now));
        let ghost tnew = task@;
        self.store_task(k, task);
        assert(changes_view(self.changes@) =~= changes_view(old(self).changes@) + seq![ChangeView::Remove(st, id@), ChangeView::Save(tnew)]);
        Ok(MoveOutcome::Moved)
    }

    fn find_with_status(&self, id: &str, st: Status) -> (r: Option<usize>)
        ensures
            match r {
                Some(k) => index_with(tviews(self.tasks@), id@, st, 0) == Some(k as int) && k
                    < self.tasks@.len(),
                None => index_with(tviews(self.tasks@), id@, st, 0) is None,
            },
    {
        let mut i: usize = 0;
        while i < self.tasks.len()
            invariant
                i <= self.tasks.len(),
                index_with(tviews(self.tasks@), id@, st, 0) == index_with(
                    tviews(self.tasks@),
                    id@,
                    st,
                    i as int,
                ),
            decreases self.tasks.len() - i,
        {
            if self.tasks[i].status == st && same(self.tasks[i].id.as_str(), id) {
                return Some(i);
            }
            i += 1;
        }
        None
    }

    /// Add `dep` to `id`'s dependencies (`dep` must have a task file; a no-op
    /// if already present).
    pub fn dep_add(&mut self, id: &str, dep: &str, now: &str) -> (r: DepOutcome)
        requires
            old(self).wf(),
        ensures
            final(self).wf(),
            same_frame(*final(self), *old(self)),
            final(self).files@ == old(self).files@,
            ({
                let tv = tviews(old(self).tasks@);
                match load_index(tv, file_views(old(self).files@), id@) {
                    None => r == DepOutcome::TaskNotFound && final(self).tasks@ == old(self).tasks@
                        && final(self).changes@ == old(self).changes@,
                    Some(k) => if file_status(file_views(old(self).files@), dep@) is None {
                        r == DepOutcome::DepNotFound && final(self).tasks@ == old(self).tasks@
                            && final(self).changes@ == old(self).changes@
                    } else if tv[k].depends_on.contains(dep@) {
                        r == DepOutcome::AlreadyDep && final(self).tasks@ == old(self).tasks@
                            && final(self).changes@ == old(self).changes@
                    } else {
                        &&& r == DepOutcome::Added
                        &&& tviews(final(self).tasks@) == tv.update(k, with_dep(tv[k], dep@, now@))
                        &&& changes_view(final(self).changes@) == changes_view(old(self).changes@).push(
                            ChangeView::Save(with_dep(tv[k], dep@, now@)),
                        )
                    },
                }
            }),
    {
        let k = match self.task_index(id) {
            Some(k) => k,
            None => return DepOutcome::TaskNotFound,
        };
        if find_task_file(&self.files, dep).is_none() {
            return DepOutcome::DepNotFound;
        }
        if contains_str(&self.tasks[k].depends_on, dep) {
            return DepOutcome::AlreadyDep;
        }
        let mut task = self.tasks[k].duplicate();
        let ghost before = task.depends_on@;
        task.depends_on.push(crate::text::owned(dep));
        assert(strs(task.depends_on@) =~= strs(before).push(dep@));
        task.updated = Some(crate::text::owned(now));
        self.store_task(k, task);
        DepOutcome::Added
    }

    /// Remove `dep` from `id`'s dependencies (every occurrence).
    pub fn dep_remove(&mut self, id: &str, dep: &str, now: &str) -> (r: DepOutcome)
        requires
            old(self).wf(),
        ensures
            final(self).wf(),
            same_frame(*final(self), *old(self)),
            final(self).files@ == old(self).files@,
            ({
                let tv = tviews(old(self).tasks@);
                match load_index(tv, file_views(old(self).files@), id@) {
                    None => r == DepOutcome::TaskNotFound && final(self).tasks@ == old(self).tasks@
                        && final(self).changes@ == old(self).changes@,
                    Some(k) => if !tv[k].depends_on.contains(dep@) {
                        r == DepOutcome::NotDep && final(self).tasks@ == old(self).tasks@
                            && final(self).changes@ == old(self).changes@
                    } else {
                        &&& r == DepOutcome::Removed
                        &&& tviews(final(self).tasks@) == tv.update(k, without_dep(tv[k], dep@, now@))
                        &&& changes_view(final(self).changes@) == changes_view(old(self).changes@).push(
                            ChangeView::Save(without_dep(tv[k], dep@, now@)),
                        )
                    },
                }
            }),
    {
        let k = match self.task_index(id) {
            Some(k) => k,
            None => return DepOutcome::TaskNotFound,
        };
        if !contains_str(&self.tasks[k].depends_on, dep) {
            return DepOutcome::NotDep;
        }
        let mut task = self.tasks[k].duplicate();
        let ghost start = strs(task.depends_on@);
        let ghost keep = not_dep(dep@);
        let mut kept: Vec<String> = Vec::new();
        let mut i: usize = 0;
        assert(start.take(0).filter(keep) =~= Seq::<Seq<char>>::empty());
        while i < task.depends_on.len()
            invariant
                i <= task.depends_on.len(),
                start == strs(task.depends_on@),
                keep == not_dep(dep@),
                strs(kept@) == start.take(i as int).filter(keep),
            decreases task.depends_on.len() - i,
        {
            proof {
                assert(start.take(i + 1) == start.take(i as int).push(task.depends_on@[i as int]@));
                start.take(i as int).lemma_filter_push(task.depends_on@[i as int]@, keep);
            }
            if !same(task.depends_on[i].as_str(), dep) {
                let ghost before = kept@;
                kept.push(task.depends_on[i].clone());
                assert(strs(kept@) =~= strs(before).push(task.depends_on@[i as int]@));
            }
            i += 1;
        }
        assert(start.take(task.depends_on.len() as int) == start);
        task.depends_on = kept;
        task.updated = Some(crate::text::owned(now));
        self.store_task(k, task);
        DepOutcome::Removed
    }

    /// Repoint `id` under `new_parent` (`None` promotes it to top level).
    /// Refused for an unknown task or parent, the task itself, one of its own
    /// descendants, or no change.
    pub fn reparent(&mut self, id: &str, new_parent: Option<String>, now: &str) -> (r: Reparent)
        requires
            old(self).wf(),
        ensures
            final(self).wf(),
            same_frame(*final(self), *old(self)),
            final(self).files@ == old(self).files@,
            ({
                let tv = tviews(old(self).tasks@);
                match reparent_refusal(tv, id@, ostr(new_parent)) {
                    Some(msg) => r matches Reparent::Error(m) && m@ == msg && final(self).tasks@
                        == old(self).tasks@ && final(self).changes@ == old(self).changes@,
                    None => {
                        let k = index_from(tv, id@, 0)->0;
                        let t = reparented(tv[k], ostr(new_parent), now@);
                        &&& r matches Reparent::Done { new_parent: p } && ostr(p) == ostr(new_parent)
                        &&& tviews(final(self).tasks@) == tv.update(k, t)
                        &&& changes_view(final(self).changes@) == changes_view(old(self).changes@).push(
                            ChangeView::Save(t),
                        )
                    },
                }
            }),
    {
        let ghost tv = tviews(self.tasks@);
        proof {
            lemma_index_from(tv, id@, 0);
        }
        let k = match find_index(&self.tasks, id) {
            Some(k) => k,
            None => {
                let mut m = chars_of("task ");
                push_str(&mut m, id);
                push_str(&mut m, " not found");
                return Reparent::Error(string_of(&m));
            },
        };
        match &new_parent {
            Some(np) => {
                if same(np.as_str(), id) {
                    return Reparent::Error(crate::text::owned("cannot reparent a task under itself"));
                }
                proof {
                    lemma_index_from(tv, np@, 0);
                }
                if find_index(&self.tasks, np.as_str()).is_none() {
                    let mut m = chars_of("parent task ");
                    push_str(&mut m, np.as_str());
                    push_str(&mut m, " not found");
                    return Reparent::Error(string_of(&m));
                }
                let own = crate::text::owned(id);
                let below = descendant_ids(&self.tasks, &own, true);
                if has_string(&below, np) {
                    return Reparent::Error(crate::text::owned("cannot reparent under own descendant"));
                }
                let already = match &self.tasks[k].parent {
                    Some(p) => same(p.as_str(), np.as_str()),
                    None => false,
                };
                if already {
                    let mut m = chars_of(id);
                    push_str(&mut m, " is already a child of ");
                    push_str(&mut m, np.as_str());
                    return Reparent::Error(string_of(&m));
                }
            },
            None => {
                if self.tasks[k].parent.is_none() {
                    let mut m = chars_of(id);
                    push_str(&mut m, " is already a top-level task");
                    return Reparent::Error(string_of(&m));
                }
            },
        }
        let mut task = self.tasks[k].duplicate();
        task.parent = copy_opt(&new_parent);
        task.updated = Some(crate::text::owned(now));
        self.store_task(k, task);
        Reparent::Done { new_parent }
    }
}

} // verus!
