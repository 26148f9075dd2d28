//! Editing one yak in place: its `needs` block, and a bundle of field edits.

use vstd::prelude::*;
use crate::text::{chars_of, same};
use crate::model::{Status, Task, TaskView, tviews, strs, ostr};
use crate::filter::has_string;
use crate::store::layout::{file_status, file_views, find_task_file};
use crate::store::notes::{append_note, append_note_spec, ostr_ref};
use crate::farm::{Farm, Change, ChangeView, changes_view};

verus! {

/// The index of the first task at or after `i` with this id and status.
pub open spec fn index_with(tv: Seq<TaskView>, id: Seq<char>, st: Status, i: int) -> Option<int>
    decreases tv.len() - i,
{
    if i < 0 || i >= tv.len() {
        None
    } else if tv[i].id == id && tv[i].status == st {
        Some(i)
    } else {
        index_with(tv, id, st, i + 1)
    }
}

pub proof fn lemma_index_with(tv: Seq<TaskView>, id: Seq<char>, st: Status, i: int)
    requires
        0 <= i,
    ensures
        match index_with(tv, id, st, i) {
            Some(k) => i <= k < tv.len() && tv[k].id == id && tv[k].status == st,
            None => forall|j: int| i <= j < tv.len() ==> !(tv[j].id == id && tv[j].status == st),
        },
    decreases tv.len() - i,
{
    if i < tv.len() && !(tv[i].id == id && tv[i].status == st) {
        lemma_index_with(tv, id, st, i + 1);
    }
}

/// The task a load by id reads: the file the probe finds first, if it
/// parsed.
pub open spec fn load_index(tv: Seq<TaskView>, files: Seq<(Seq<char>, Status)>, id: Seq<char>) -> Option<int> {
    match file_status(files, id) {
        Some(st) => index_with(tv, id, st, 0),
        None => None,
    }
}

/// Everything but the tasks and the owed writes is as it was.
pub open spec fn same_frame(a: Farm, b: Farm) -> bool {
    &&& a.root == b.root
    &&& a.schema_warning == b.schema_warning
    &&& a.pointer_prefix == b.pointer_prefix
    &&& a.config == b.config
    &&& a.config_text == b.config_text
}

/// `t` with its `needs` block set (or cleared), an optional note appended,
/// and `updated` bumped.
pub open spec fn with_needs(
    t: TaskView,
    needs: Option<Seq<char>>,
    actor: Option<Seq<char>>,
    note: Option<Seq<char>>,
    now: Seq<char>,
) -> TaskView {
    TaskView {
        needs: needs,
        body: match note {
            Some(n) => append_note_spec(t.body, now, actor, n),
            None => t.body,
        },
        updated: Some(now),
        ..t
    }
}

/// A set of edits to apply to a task in one operation.
pub struct TaskEdit {
    pub title: Option<String>,
    pub kind: Option<String>,
    pub priority: Option<u8>,
    pub description: Option<String>,
    pub add_labels: Vec<String>,
    pub remove_labels: Vec<String>,
    /// Set the external `source:` URL; an empty string clears it.
    pub source: Option<String>,
    /// A rerunnable verification command; an empty string clears it.
    pub verify: Option<String>,
    pub note: Option<String>,
    /// Actor to attribute an appended note to.
    pub actor: Option<String>,
}

impl Default for TaskEdit {
    fn default() -> (r: TaskEdit)
        ensures
            r.title is None && r.kind is None && r.priority is None && r.description is None,
            r.add_labels@.len() == 0 && r.remove_labels@.len() == 0,
            r.source is None && r.verify is None && r.note is None && r.actor is None,
    {
        TaskEdit {
            title: None,
            kind: None,
            priority: None,
            description: None,
            add_labels: Vec::new(),
            remove_labels: Vec::new(),
            source: None,
            verify: None,
            note: None,
            actor: None,
        }
    }
}

pub enum UpdateOutcome {
    Updated,
    NoChanges,
    NotFound,
}

/// `labels` with each of `adds` appended, in order, unless already present.
pub open spec fn add_labels_spec(labels: Seq<Seq<char>>, adds: Seq<Seq<char>>) -> Seq<Seq<char>>
    decreases adds.len(),
{
    if adds.len() == 0 {
        labels
    } else {
        let prev = add_labels_spec(labels, adds.drop_last());
        if prev.contains(adds.last()) {
            prev
        } else {
            prev.push(adds.last())
        }
    }
}

/// An empty string clears an optional field.
pub open spec fn clearing(s: Seq<char>) -> Option<Seq<char>> {
    if s.len() == 0 {
        None
    } else {
        Some(s)
    }
}

/// The task after the edits (`updated` aside).
pub open spec fn edited(t: TaskView, e: TaskEdit, now: Seq<char>) -> TaskView {
    let body = match e.description {
        Some(d) => d@,
        None => t.body,
    };
    let labels = if e.add_labels@.len() > 0 {
        add_labels_spec(t.labels, strs(e.add_labels@))
    } else {
        t.labels
    };
    TaskView {
        title: match e.title {
            Some(x) => x@,
            None => t.title,
        },
        kind: match e.kind {
            Some(x) => x@,
            None => t.kind,
        },
        priority: match e.priority {
            Some(p) => p,
            None => t.priority,
        },
        labels: if e.remove_labels@.len() > 0 {
            labels.filter(|l: Seq<char>| !strs(e.remove_labels@).contains(l))
        } else {
            labels
        },
        source: match e.source {
            Some(s) => clearing(s@),
            None => t.source,
        },
        verify: match e.verify {
            Some(v) => clearing(v@),
            None => t.verify,
        },
        body: match e.note {
            Some(n) => append_note_spec(body, now, ostr(e.actor), n@),
            None => body,
        },
        ..t
    }
}

/// Whether the edits change anything: any field given, any label listed, or
/// a source that differs.
pub open spec fn edit_changes(t: TaskView, e: TaskEdit) -> bool {
    ||| e.title is Some
    ||| e.kind is Some
    ||| e.priority is Some
    ||| e.description is Some
    ||| e.add_labels@.len() > 0
    ||| e.remove_labels@.len() > 0
    ||| (e.source matches Some(s) && clearing(s@) != t.source)
    ||| e.verify is Some
    ||| e.note is Some
}

fn find_with(tasks: &Vec<Task>, id: &str, st: Status) -> (r: Option<usize>)
    ensures
        match r {
            Some(k) => index_with(tviews(tasks@), id@, st, 0) == Some(k as int),
            None => index_with(tviews(tasks@), id@, st, 0) is None,
        },
{
    let mut i: usize = 0;
    while i < tasks.len()
        invariant
            i <= tasks.len(),
            index_with(tviews(tasks@), id@, st, 0) == index_with(tviews(tasks@), id@, st, i as int),
        decreases tasks.len() - i,
    {
        if tasks[i].status == st && same(tasks[i].id.as_str(), id) {
            return Some(i);
        }
        i += 1;
    }
    None
}

fn opt_as_str(o: &Option<String>) -> (r: Option<&str>)
    ensures
        ostr_ref(r) == ostr(*o),
{
    match o {
        Some(s) => Some(s.as_str()),
        None => None,
    }
}

fn with_added(labels: &Vec<String>, adds: &Vec<String>) -> (r: Vec<String>)
    ensures
        strs(r@) == add_labels_spec(strs(labels@), strs(adds@)),
{
    let mut out = crate::model::copy_strings(labels);
    let mut j: usize = 0;
    assert(strs(adds@).take(0) =~= Seq::<Seq<char>>::empty());
    while j < adds.len()
        invariant
            j <= adds.len(),
            strs(out@) == add_labels_spec(strs(labels@), strs(adds@).take(j as int)),
        decreases adds.len() - j,
    {
        proof {
            let a = strs(adds@);
            assert(a.take(j + 1).drop_last() == a.take(j as int));
            assert(a.take(j + 1).last() == adds@[j as int]@);
        }
        if !has_string(&out, &adds[j]) {
            let ghost before = out@;
            out.push(adds[j].clone());
            assert(strs(out@) =~= strs(before).push(adds@[j as int]@));
        }
        j += 1;
    }
    assert(strs(adds@).take(adds.len() as int) == strs(adds@));
    out
}

fn without(labels: &Vec<String>, removes: &Vec<String>) -> (r: Vec<String>)
    ensures
        strs(r@) == strs(labels@).filter(|l: Seq<char>| !strs(removes@).contains(l)),
{
    let ghost keep = |l: Seq<char>| !strs(removes@).contains(l);
    let ghost start = strs(labels@);
    let mut kept: Vec<String> = Vec::new();
    let mut j: usize = 0;
    assert(start.take(0).filter(keep) =~= Seq::<Seq<char>>::empty());
    while j < labels.len()
        invariant
            j <= labels.len(),
            start == strs(labels@),
            keep == (|l: Seq<char>| !strs(removes@).contains(l)),
            strs(kept@) == start.take(j as int).filter(keep),
        decreases labels.len() - j,
    {
        proof {
            assert(start.take(j + 1) == start.take(j as int).push(labels@[j as int]@));
            start.take(j as int).lemma_filter_push(labels@[j as int]@, keep);
        }
        if !has_string(removes, &labels[j]) {
            let ghost before = kept@;
            kept.push(labels[j].clone());
            assert(strs(kept@) =~= strs(before).push(labels@[j as int]@));
        }
        j += 1;
    }
    assert(start.take(labels.len() as int) == start);
    kept
}

fn cleared(s: String) -> (r: Option<String>)
    ensures
        ostr(r) == clearing(s@),
{
    if chars_of(s.as_str()).len() == 0 {
        None
    } else {
        Some(s)
    }
}

fn differ(a: &Option<String>, b: &Option<String>) -> (r: bool)
    ensures
        r == (ostr(*a) != ostr(*b)),
{
    match (a, b) {
        (Some(x), Some(y)) => !same(x.as_str(), y.as_str()),
        (None, None) => false,
        _ => true,
    }
}

/// The task after `edit`, and whether anything changed (`updated` aside).
fn apply_edit(task: Task, edit: TaskEdit, now: &str) -> (r: (Task, bool))
    ensures
        r.0@ == edited(task@, edit, now@),
        r.1 == edit_changes(task@, edit),
{
    let ghost e = edit;
    let ghost t0 = task@;
    let mut task = task;
    let mut changed = false;
    let TaskEdit {
        title,
        kind,
        priority,
        description,
        add_labels,
        remove_labels,
        source,
        verify,
        note,
        actor,
    } = edit;
    if let Some(t) = title {
        task.title = t;
        changed = true;
    }
    if let Some(x) = kind {
        task.kind = x;
        changed = true;
    }
    if let Some(p) = priority {
        task.priority = p;
        changed = true;
    }
    if let Some(d) = description {
        task.body = d;
        changed = true;
    }
    if add_labels.len() > 0 {
        task.labels = with_added(&task.labels, &add_labels);
        changed = true;
    }
    if remove_labels.len() > 0 {
        task.labels = without(&task.labels, &remove_labels);
        changed = true;
    }
    if let Some(s) = source {
        let fresh = cleared(s);
        if differ(&fresh, &task.source) {
            task.source = fresh;
            changed = true;
        }
    }
    if let Some(v) = verify {
        task.verify = cleared(v);
        changed = true;
    }
    if let Some(n) = note {
        task.body = append_note(task.body.as_str(), now, opt_as_str(&actor), n.as_str());
        changed = true;
    }
    proof {
        let ed = edited(t0, e, now@);
        assert(task@.labels =~= ed.labels);
        assert(task@.body =~= ed.body);
        assert(task@ == ed);
    }
    (task, changed)
}

impl Farm {
    /// The task a load by id reads: the first status directory holding
    /// `<id>.md`, if that file parsed.
    pub fn task_index(&self, id: &str) -> (r: Option<usize>)
        ensures
            match r {
                Some(k) => load_index(tviews(self.tasks@), file_views(self.files@), id@) == Some(k as int)
                    && k < self.tasks@.len(),
                None => load_index(tviews(self.tasks@), file_views(self.files@), id@) is None,
            },
    {
        match find_task_file(&self.files, id) {
            Some(st) => {
                let r = find_with(&self.tasks, id, st);
                proof {
                    lemma_index_with(tviews(self.tasks@), id@, st, 0);
                }
                r
            },
            None => None,
        }
    }

    /// Replace task `k` with `t` (same id) and owe its write.
    pub fn store_task(&mut self, k: usize, t: Task)
        requires
            k < old(self).tasks@.len(),
            t.id@ == old(self).tasks@[k as int].id@,
            old(self).wf(),
        ensures
            final(self).wf(),
            same_frame(*final(self), *old(self)),
            final(self).files@ == old(self).files@,
            tviews(final(self).tasks@) == tviews(old(self).tasks@).update(k as int, t@),
            changes_view(final(self).changes@) == changes_view(old(self).changes@).push(
                ChangeView::Save(t@),
            ),
    {
        let copy = t.duplicate();
        let ghost before = tviews(self.tasks@);
        self.tasks.set(k, t);
        let ghost prev = self.changes@;
        self.changes.push(Change::Save(copy));
        proof {
            let after = tviews(self.tasks@);
            assert(after =~= before.update(k as int, copy@));
            assert forall|i: int| 0 <= i < after.len() implies #[trigger] after[i].id == before[i].id by {}
            assert(changes_view(self.changes@) =~= changes_view(prev).push(ChangeView::Save(copy@)));
        }
    }

    /// Set (or clear) a yak's `needs` block, optionally appending an
    /// attributed note in the same write. Returns the yak's status, or
    /// `None` if the id is unknown.
    pub fn set_needs(
        &mut self,
        id: &str,
        needs: Option<String>,
        actor: Option<&str>,
        note: Option<&str>,
        now: &str,
    ) -> (r: Option<Status>)
        requires
            old(self).wf(),
        ensures
            final(self).wf(),
            same_frame(*final(self), *old(self)),
            final(self).files@ == old(self).files@,
            match load_index(tviews(old(self).tasks@), file_views(old(self).files@), id@) {
                None => r is None && final(self).tasks@ == old(self).tasks@ && final(self).changes@
                    == old(self).changes@,
                Some(k) => {
                    let t = with_needs(tviews(old(self).tasks@)[k], ostr(needs), ostr_ref(actor), ostr_ref(note), now@);
                    &&& r == Some(old(self).tasks@[k].status)
                    &&& tviews(final(self).tasks@) == tviews(old(self).tasks@).update(k, t)
                    &&& changes_view(final(self).changes@) == changes_view(old(self).changes@).push(
                        ChangeView::Save(t),
                    )
                },
            },
    {
        let k = match self.task_index(id) {
            Some(k) => k,
            None => return None,
        };
        let mut task = self.tasks[k].duplicate();
        let status = task.status;
        task.needs = needs;
        match note {
            Some(n) => {
                task.body = append_note(task.body.as_str(), now, actor, n);
            },
            None => {},
        }
        task.updated = Some(crate::text::owned(now));
        self.store_task(k, task);
        Some(status)
    }

    /// Apply a bundle of edits to one task. Nothing is written when no edit
    /// changes anything.
    pub fn update(&mut self, id: &str, edit: TaskEdit, now: &str) -> (r: UpdateOutcome)
        requires
            old(self).wf(),
        ensures
            final(self).wf(),
            same_frame(*final(self), *old(self)),
            final(self).files@ == old(self).files@,
            match load_index(tviews(old(self).tasks@), file_views(old(self).files@), id@) {
                None => r is NotFound && final(self).tasks@ == old(self).tasks@
                    && final(self).changes@ == old(self).changes@,
                Some(k) => {
                    let t0 = tviews(old(self).tasks@)[k];
                    let t = TaskView { updated: Some(now@), ..edited(t0, edit, now@) };
                    if edit_changes(t0, edit) {
                        &&& r is Updated
                        &&& tviews(final(self).tasks@) == tviews(old(self).tasks@).update(k, t)
                        &&& changes_view(final(self).changes@) == changes_view(old(self).changes@).push(
                            ChangeView::Save(t),
                        )
                    } else {
                        &&& r is NoChanges
                        &&& final(self).tasks@ == old(self).tasks@
                        &&& final(self).changes@ == old(self).changes@
                    }
                },
            },
    {
        let k = match self.task_index(id) {
            Some(k) => k,
            None => return UpdateOutcome::NotFound,
        };
        let (mut task, changed) = apply_edit(self.tasks[k].duplicate(), edit, now);
        if changed {
            task.updated = Some(crate::text::owned(now));
            self.store_task(k, task);
            UpdateOutcome::Updated
        } else {
            UpdateOutcome::NoChanges
        }
    }
}

} // verus!
