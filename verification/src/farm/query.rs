//! Read-only views over a farm: lists, the ready queue, the inbox of blocked
//! yaks, counts, and one yak with its children.

use vstd::prelude::*;
use crate::text::{chars_of, lt, seq_lt, same, lemma_lt_trans, lemma_lt_total};
use crate::model::{Status, Task, TaskView, tviews, strs, ostr};
use crate::filter::{
    FilterSpec, apply, keeps_parts, resolved_ids, resolved_spec, unresolved_deps, search_blob,
    has_unresolved,
};
use crate::farm::{Farm, sorted_by, sort_tasks};

verus! {

/// The views of a list of borrowed tasks.
pub open spec fn ref_views(v: Seq<&Task>) -> Seq<TaskView> {
    v.map_values(|t: &Task| t@)
}

fn own_all(rows: &Vec<&Task>) -> (r: Vec<Task>)
    ensures
        tviews(r@) == ref_views(rows@),
{
    let mut r: Vec<Task> = Vec::new();
    let mut i: usize = 0;
    while i < rows.len()
        invariant
            i <= rows.len(),
            tviews(r@) == ref_views(rows@).take(i as int),
        decreases rows.len() - i,
    {
        let t = rows[i].duplicate();
        let ghost before = r@;
        r.push(t);
        assert(tviews(r@) =~= tviews(before).push(rows@[i as int]@));
        assert(ref_views(rows@).take(i + 1) =~= ref_views(rows@).take(i as int).push(rows@[i as int]@));
        i += 1;
    }
    assert(ref_views(rows@).take(rows.len() as int) =~= ref_views(rows@));
    r
}

fn one_status(s: Status) -> (v: Vec<Status>)
    ensures
        v@ == seq![s],
{
    let mut v: Vec<Status> = Vec::new();
    v.push(s);
    assert(v@ =~= seq![s]);
    v
}

fn every_status() -> (v: Vec<Status>)
    ensures
        v@ == seq![Status::Hairy, Status::Shaving, Status::Shorn, Status::Dead],
{
    let mut v: Vec<Status> = Vec::new();
    v.push(Status::Hairy);
    v.push(Status::Shaving);
    v.push(Status::Shorn);
    v.push(Status::Dead);
    assert(v@ =~= seq![Status::Hairy, Status::Shaving, Status::Shorn, Status::Dead]);
    v
}

/// The tasks `next` offers: hairy, ready, and otherwise as `spec` says.
pub open spec fn next_keeps(spec: FilterSpec, tv: Seq<TaskView>, t: TaskView) -> bool {
    keeps_parts(
        seq![Status::Hairy],
        ostr(spec.parent),
        strs(spec.types@),
        spec.priorities@,
        strs(spec.labels@),
        ostr(spec.search),
        true,
        spec.tangled_only,
        tv,
        t,
        false,
    )
}

/// The tasks `inbox` considers before the `needs` test: every status.
pub open spec fn inbox_keeps(spec: FilterSpec, tv: Seq<TaskView>, t: TaskView) -> bool {
    keeps_parts(
        seq![Status::Hairy, Status::Shaving, Status::Shorn, Status::Dead],
        ostr(spec.parent),
        strs(spec.types@),
        spec.priorities@,
        strs(spec.labels@),
        ostr(spec.search),
        spec.ready_only,
        spec.tangled_only,
        tv,
        t,
        true,
    ) && t.needs is Some
}

/// A `needs` block is never invisible: whether `inbox` lists a yak does not
/// depend on its status, and with no other predicate set it lists exactly
/// the yaks that carry a block.
pub proof fn inbox_ignores_status(spec: FilterSpec, tv: Seq<TaskView>, t: TaskView, s: Status)
    ensures
        inbox_keeps(spec, tv, t) == inbox_keeps(spec, tv, TaskView { status: s, ..t }),
        (spec.parent is None && spec.types@.len() == 0 && spec.priorities@.len() == 0
            && spec.labels@.len() == 0 && spec.search is None && !spec.ready_only
            && !spec.tangled_only) ==> inbox_keeps(spec, tv, t) == (t.needs is Some),
{
    let every = seq![Status::Hairy, Status::Shaving, Status::Shorn, Status::Dead];
    let u = TaskView { status: s, ..t };
    assert(every.contains(t.status)) by {
        match t.status {
            Status::Hairy => assert(every[0] == t.status),
            Status::Shaving => assert(every[1] == t.status),
            Status::Shorn => assert(every[2] == t.status),
            Status::Dead => assert(every[3] == t.status),
        }
    }
    assert(every.contains(u.status)) by {
        match s {
            Status::Hairy => assert(every[0] == s),
            Status::Shaving => assert(every[1] == s),
            Status::Shorn => assert(every[2] == s),
            Status::Dead => assert(every[3] == s),
        }
    }
    assert(search_blob(u) == search_blob(t));
    assert(u.id == t.id && u.kind == t.kind && u.priority == t.priority && u.labels == t.labels
        && u.depends_on == t.depends_on && u.needs == t.needs);
    let rs = resolved_spec(tv);
    assert(has_unresolved(u, rs) == has_unresolved(t, rs));
    assert((exists|k: int| 0 <= k < t.labels.len() && strs(spec.labels@).contains(t.labels[k]))
        == (exists|k: int| 0 <= k < u.labels.len() && strs(spec.labels@).contains(u.labels[k])));
}

/// The tasks `tangled` reports: hairy with an unresolved dependency.
pub open spec fn tangled_keeps(spec: FilterSpec, tv: Seq<TaskView>, t: TaskView) -> bool {
    keeps_parts(
        seq![Status::Hairy],
        ostr(spec.parent),
        strs(spec.types@),
        spec.priorities@,
        strs(spec.labels@),
        ostr(spec.search),
        spec.ready_only,
        true,
        tv,
        t,
        false,
    )
}

/// The index of the first task with id `id` at or after `i`.
pub open spec fn index_from(tv: Seq<TaskView>, id: Seq<char>, i: int) -> Option<int>
    decreases tv.len() - i,
{
    if i < 0 || i >= tv.len() {
        None
    } else if tv[i].id == id {
        Some(i)
    } else {
        index_from(tv, id, i + 1)
    }
}

pub proof fn lemma_index_from(tv: Seq<TaskView>, id: Seq<char>, i: int)
    requires
        0 <= i,
    ensures
        match index_from(tv, id, i) {
            Some(k) => i <= k < tv.len() && tv[k].id == id && forall|j: int| i <= j < k ==> tv[j].id != id,
            None => forall|j: int| i <= j < tv.len() ==> tv[j].id != id,
        },
    decreases tv.len() - i,
{
    if i < tv.len() && tv[i].id != id {
        lemma_index_from(tv, id, i + 1);
    }
}

/// Find the first task with id `id`.
pub fn find_index(tasks: &Vec<Task>, id: &str) -> (r: Option<usize>)
    ensures
        match r {
            Some(k) => index_from(tviews(tasks@), id@, 0) == Some(k as int),
            None => index_from(tviews(tasks@), id@, 0) is None,
        },
{
    let mut i: usize = 0;
    while i < tasks.len()
        invariant
            i <= tasks.len(),
            index_from(tviews(tasks@), id@, 0) == index_from(tviews(tasks@), id@, i as int),
        decreases tasks.len() - i,
    {
        if same(tasks[i].id.as_str(), id) {
            assert(tviews(tasks@)[i as int].id == id@);
            return Some(i);
        }
        assert(tviews(tasks@)[i as int].id != id@);
        i += 1;
    }
    None
}

/// A task plus its immediate children.
pub struct Show {
    pub task: Task,
    pub children: Vec<Task>,
}

/// Counts over the farm's live (not dead) tasks.
pub struct Stats {
    pub total: usize,
    pub hairy: usize,
    pub shaving: usize,
    pub shorn: usize,
    /// Each type with its count, ascending by type.
    pub by_type: Vec<(String, usize)>,
    /// Each priority with its count, ascending by priority.
    pub by_priority: Vec<(u8, usize)>,
}

/// How many of `s` are live tasks of type `k`.
pub open spec fn type_count(s: Seq<TaskView>, k: Seq<char>) -> nat
    decreases s.len(),
{
    if s.len() == 0 {
        0
    } else {
        type_count(s.drop_last(), k) + if s.last().status != Status::Dead && s.last().kind == k {
            1nat
        } else {
            0nat
        }
    }
}

/// How many of `s` are live tasks of priority `p`.
pub open spec fn priority_count(s: Seq<TaskView>, p: u8) -> nat
    decreases s.len(),
{
    if s.len() == 0 {
        0
    } else {
        priority_count(s.drop_last(), p) + if s.last().status != Status::Dead && s.last().priority
            == p {
            1nat
        } else {
            0nat
        }
    }
}

/// How many of `s` have status `st`.
pub open spec fn status_count(s: Seq<TaskView>, st: Status) -> nat
    decreases s.len(),
{
    if s.len() == 0 {
        0
    } else {
        status_count(s.drop_last(), st) + if s.last().status == st {
            1nat
        } else {
            0nat
        }
    }
}

/// The live tasks.
pub open spec fn live_count(s: Seq<TaskView>) -> nat
    decreases s.len(),
{
    if s.len() == 0 {
        0
    } else {
        live_count(s.drop_last()) + if s.last().status != Status::Dead {
            1nat
        } else {
            0nat
        }
    }
}

/// The types of the live tasks, in order.
pub open spec fn live_kinds(s: Seq<TaskView>) -> Seq<Seq<char>> {
    s.filter(|t: TaskView| t.status != Status::Dead).map_values(|t: TaskView| t.kind)
}

/// The priorities of the live tasks, in order.
pub open spec fn live_prios(s: Seq<TaskView>) -> Seq<u8> {
    s.filter(|t: TaskView| t.status != Status::Dead).map_values(|t: TaskView| t.priority)
}

/// The types of the live tasks, each once, strictly ascending, each with
/// the number of live tasks of that type.
pub open spec fn type_table(t: Seq<(Seq<char>, nat)>, s: Seq<TaskView>) -> bool {
    &&& forall|i: int, j: int| 0 <= i < j < t.len() ==> seq_lt(#[trigger] t[i].0, #[trigger] t[j].0)
    &&& forall|i: int| 0 <= i < t.len() ==> #[trigger] t[i].1 == type_count(s, t[i].0)
    &&& forall|k: Seq<char>|
        t.map_values(|e: (Seq<char>, nat)| e.0).contains(k) <==> #[trigger] live_kinds(s).contains(k)
}

/// The priorities of the live tasks, each once, ascending, each with the
/// number of live tasks of that priority.
pub open spec fn priority_table(t: Seq<(u8, nat)>, s: Seq<TaskView>) -> bool {
    &&& forall|i: int, j: int| 0 <= i < j < t.len() ==> #[trigger] t[i].0 < #[trigger] t[j].0
    &&& forall|i: int| 0 <= i < t.len() ==> #[trigger] t[i].1 == priority_count(s, t[i].0)
    &&& forall|p: u8| t.map_values(|e: (u8, nat)| e.0).contains(p) <==> #[trigger] live_prios(s).contains(p)
}

pub open spec fn type_rows(v: Seq<(String, usize)>) -> Seq<(Seq<char>, nat)> {
    v.map_values(|e: (String, usize)| (e.0@, e.1 as nat))
}

pub open spec fn priority_rows(v: Seq<(u8, usize)>) -> Seq<(u8, nat)> {
    v.map_values(|e: (u8, usize)| (e.0, e.1 as nat))
}

proof fn lemma_counts_bounded(s: Seq<TaskView>, k: Seq<char>, p: u8, st: Status)
    ensures
        type_count(s, k) <= s.len(),
        priority_count(s, p) <= s.len(),
        status_count(s, st) <= s.len(),
        live_count(s) <= s.len(),
    decreases s.len(),
{
    if s.len() > 0 {
        lemma_counts_bounded(s.drop_last(), k, p, st);
    }
}

impl Farm {
    /// Tasks matching `spec`, ordered by status then id.
    pub fn list(&self, spec: FilterSpec, include_dead: bool) -> (rows: Vec<Task>)
        ensures
            sorted_by(true, tviews(rows@)),
            tviews(rows@).to_multiset() == tviews(self.tasks@).filter(
                |t: TaskView| spec.keeps(tviews(self.tasks@), t, include_dead),
            ).to_multiset(),
    {
        let picked = apply(&self.tasks, &spec, include_dead);
        let owned = own_all(&picked);
        sort_tasks(owned, true)
    }

    /// Hairy tasks that are ready (every dependency resolved, no `needs`
    /// block), in id order.
    pub fn next(&self, spec: FilterSpec) -> (rows: Vec<Task>)
        ensures
            tviews(rows@) == tviews(self.tasks@).filter(
                |t: TaskView| next_keeps(spec, tviews(self.tasks@), t),
            ),
    {
        let ghost tv = tviews(self.tasks@);
        let narrowed = FilterSpec {
            statuses: one_status(Status::Hairy),
            types: spec.types,
            priorities: spec.priorities,
            labels: spec.labels,
            search: spec.search,
            ready_only: true,
            tangled_only: spec.tangled_only,
            parent: spec.parent,
        };
        let picked = apply(&self.tasks, &narrowed, false);
        let rows = own_all(&picked);
        assert(tviews(rows@) == tv.filter(|t: TaskView| narrowed.keeps(tv, t, false)));
        assert((|t: TaskView| narrowed.keeps(tv, t, false)) =~= (|t: TaskView| next_keeps(spec, tv, t)));
        rows
    }

    /// Every yak carrying a `needs` block, whatever its status; the other
    /// predicates of `spec` still apply. A set block is never invisible.
    pub fn inbox(&self, spec: FilterSpec) -> (rows: Vec<Task>)
        ensures
            tviews(rows@) == tviews(self.tasks@).filter(
                |t: TaskView| inbox_keeps(spec, tviews(self.tasks@), t),
            ),
    {
        let ghost tv = tviews(self.tasks@);
        let ghost spec0 = spec;
        let widened = FilterSpec {
            statuses: every_status(),
            types: spec.types,
            priorities: spec.priorities,
            labels: spec.labels,
            search: spec.search,
            ready_only: spec.ready_only,
            tangled_only: spec.tangled_only,
            parent: spec.parent,
        };
        let picked = apply(&self.tasks, &widened, true);
        let ghost kept = tv.filter(|t: TaskView| widened.keeps(tv, t, true));
        let ghost pred = |t: TaskView| inbox_keeps(spec0, tv, t);
        assert(ref_views(picked@) == kept);
        let mut rows: Vec<Task> = Vec::new();
        let mut i: usize = 0;
        assert(tv.take(0).filter(pred) =~= Seq::<TaskView>::empty());
        while i < picked.len()
            invariant
                i <= picked.len(),
                ref_views(picked@) == kept,
                kept == tv.filter(|t: TaskView| widened.keeps(tv, t, true)),
                tv == tviews(self.tasks@),
                pred == (|t: TaskView| inbox_keeps(spec0, tv, t)),
                tviews(rows@) == kept.take(i as int).filter(|t: TaskView| t.needs is Some),
            decreases picked.len() - i,
        {
            let t = picked[i];
            proof {
                assert(kept[i as int] == t@);
                assert(kept.take(i + 1) == kept.take(i as int).push(t@));
                kept.take(i as int).lemma_filter_push(t@, |t: TaskView| t.needs is Some);
            }
            if t.needs.is_some() {
                let ghost before = rows@;
                rows.push(t.duplicate());
                assert(tviews(rows@) =~= tviews(before).push(t@));
            }
            i += 1;
        }
        proof {
            assert(kept.take(picked.len() as int) == kept);
            assert(tv.filter(|t: TaskView| widened.keeps(tv, t, true)).filter(
                |t: TaskView| t.needs is Some,
            ) =~= tv.filter(pred)) by {
                lemma_filter_filter(tv, |t: TaskView| widened.keeps(tv, t, true), |t: TaskView| t.needs is Some, pred);
            }
        }
        rows
    }

    /// Hairy tasks with at least one unresolved dependency, each paired with
    /// the ids it is waiting on (in declared order).
    pub fn tangled(&self, spec: FilterSpec) -> (rows: Vec<(Task, Vec<String>)>)
        ensures
            rows@.map_values(|r: (Task, Vec<String>)| r.0@) == tviews(self.tasks@).filter(
                |t: TaskView| tangled_keeps(spec, tviews(self.tasks@), t),
            ),
            forall|k: int|
                0 <= k < rows@.len() ==> strs(#[trigger] rows@[k].1@) == rows@[k].0@.depends_on.filter(
                    |d: Seq<char>| !resolved_spec(tviews(self.tasks@)).contains(d),
                ),
    {
        let ghost tv = tviews(self.tasks@);
        let narrowed = FilterSpec {
            statuses: one_status(Status::Hairy),
            types: spec.types,
            priorities: spec.priorities,
            labels: spec.labels,
            search: spec.search,
            ready_only: spec.ready_only,
            tangled_only: true,
            parent: spec.parent,
        };
        let resolved = resolved_ids(&self.tasks);
        let picked = apply(&self.tasks, &narrowed, false);
        assert((|t: TaskView| narrowed.keeps(tv, t, false)) =~= (|t: TaskView| tangled_keeps(spec, tv, t)));
        let mut rows: Vec<(Task, Vec<String>)> = Vec::new();
        let mut i: usize = 0;
        while i < picked.len()
            invariant
                i <= picked.len(),
                tv == tviews(self.tasks@),
                strs(resolved@) == resolved_spec(tv),
                rows@.map_values(|r: (Task, Vec<String>)| r.0@) == ref_views(picked@).take(i as int),
                forall|k: int|
                    0 <= k < rows@.len() ==> strs(#[trigger] rows@[k].1@) == rows@[k].0@.depends_on.filter(
                        |d: Seq<char>| !resolved_spec(tv).contains(d),
                    ),
            decreases picked.len() - i,
        {
            let t = picked[i];
            let waiting = unresolved_deps(t, &resolved);
            let ghost before = rows@;
            rows.push((t.duplicate(), waiting));
            assert(rows@.map_values(|r: (Task, Vec<String>)| r.0@) =~= before.map_values(
                |r: (Task, Vec<String>)| r.0@,
            ).push(t@));
            assert(ref_views(picked@).take(i + 1) =~= ref_views(picked@).take(i as int).push(t@));
            i += 1;
        }
        assert(ref_views(picked@).take(picked.len() as int) =~= ref_views(picked@));
        rows
    }

    /// A task and its immediate children (in id order); `None` if no task
    /// has that id.
    pub fn show(&self, id: &str) -> (r: Option<Show>)
        ensures
            match index_from(tviews(self.tasks@), id@, 0) {
                None => r is None,
                Some(k) => r matches Some(s) && s.task@ == tviews(self.tasks@)[k] && tviews(
                    s.children@,
                ) == tviews(self.tasks@).filter(|c: TaskView| c.parent == Some(id@)),
            },
    {
        let ghost tv = tviews(self.tasks@);
        let ghost pred = |c: TaskView| c.parent == Some(id@);
        let k = match find_index(&self.tasks, id) {
            Some(k) => k,
            None => return None,
        };
        proof {
            lemma_index_from(tv, id@, 0);
        }
        let task = self.tasks[k].duplicate();
        let mut children: Vec<Task> = Vec::new();
        let mut i: usize = 0;
        assert(tv.take(0).filter(pred) =~= Seq::<TaskView>::empty());
        while i < self.tasks.len()
            invariant
                i <= self.tasks.len(),
                tv == tviews(self.tasks@),
                pred == (|c: TaskView| c.parent == Some(id@)),
                tviews(children@) == tv.take(i as int).filter(pred),
            decreases self.tasks.len() - i,
        {
            let c = &self.tasks[i];
            let is_child = match &c.parent {
                Some(p) => same(p.as_str(), id),
                None => false,
            };
            proof {
                assert(tv[i as int] == c@);
                assert(tv.take(i + 1) == tv.take(i as int).push(c@));
                tv.take(i as int).lemma_filter_push(c@, pred);
            }
            if is_child {
                let ghost before = children@;
                children.push(c.duplicate());
                assert(tviews(children@) =~= tviews(before).push(c@));
            }
            i += 1;
        }
        assert(tv.take(self.tasks.len() as int) == tv);
        Some(Show { task, children })
    }
}

proof fn lemma_filter_filter<A>(s: Seq<A>, p: spec_fn(A) -> bool, q: spec_fn(A) -> bool, pq: spec_fn(A) -> bool)
    requires
        forall|a: A| #[trigger] pq(a) == (p(a) && q(a)),
    ensures
        s.filter(p).filter(q) == s.filter(pq),
    decreases s.len(),
{
    if s.len() > 0 {
        lemma_filter_filter(s.drop_last(), p, q, pq);
        assert(s.filter(p).filter(q) =~= s.filter(pq)) by {
            s.drop_last().lemma_filter_push(s.last(), p);
            assert(s == s.drop_last().push(s.last()));
            if p(s.last()) {
                s.drop_last().filter(p).lemma_filter_push(s.last(), q);
            }
            s.drop_last().lemma_filter_push(s.last(), pq);
        }
    } else {
        assert(s.filter(p).filter(q) =~= s.filter(pq));
    }
}

proof fn lemma_live_push(s: Seq<TaskView>, t: TaskView)
    ensures
        live_kinds(s.push(t)) == if t.status != Status::Dead { live_kinds(s).push(t.kind) } else { live_kinds(s) },
        live_prios(s.push(t)) == if t.status != Status::Dead { live_prios(s).push(t.priority) } else { live_prios(s) },
{
    let p = |t: TaskView| t.status != Status::Dead;
    s.lemma_filter_push(t, p);
    if p(t) {
        assert(s.filter(p).push(t).map_values(|t: TaskView| t.kind) =~= s.filter(p).map_values(|t: TaskView| t.kind).push(t.kind));
        assert(s.filter(p).push(t).map_values(|t: TaskView| t.priority) =~= s.filter(p).map_values(|t: TaskView| t.priority).push(t.priority));
    }
}

/// Put `k` into the strictly ascending `r`, unless it is there.
fn insert_key(r: &mut Vec<String>, k: &String)
    requires
        forall|i: int, j: int| 0 <= i < j < old(r)@.len() ==> seq_lt(#[trigger] old(r)@[i]@, #[trigger] old(r)@[j]@),
    ensures
        forall|i: int, j: int| 0 <= i < j < final(r)@.len() ==> seq_lt(#[trigger] final(r)@[i]@, #[trigger] final(r)@[j]@),
        forall|x: Seq<char>| #[trigger] strs(final(r)@).contains(x) <==> (strs(old(r)@).contains(x) || x == k@),
{
    let kc = chars_of(k.as_str());
    let mut i: usize = 0;
    while i < r.len() && lt(&chars_of(r[i].as_str()), &kc)
        invariant
            i <= r.len(),
            kc@ == k@,
            forall|m: int| 0 <= m < i ==> seq_lt(#[trigger] r@[m]@, kc@),
        decreases r.len() - i,
    {
        i += 1;
    }
    if i < r.len() && same(r[i].as_str(), k.as_str()) {
        assert(strs(r@)[i as int] == k@);
        return;
    }
    let ghost prev = r@;
    r.insert(i, k.clone());
    proof {
        assert(r@ == prev.insert(i as int, *k));
        if i < prev.len() {
            lemma_lt_total(prev[i as int]@, kc@);
        }
        assert forall|a: int, b: int| 0 <= a < b < r@.len() implies seq_lt(#[trigger] r@[a]@, #[trigger] r@[b]@) by {
            if a < i && b == i {
                assert(r@[a] == prev[a]);
            } else if a == i && b > i {
                assert(r@[b] == prev[b - 1]);
                if b - 1 > i {
                    lemma_lt_trans(kc@, prev[i as int]@, prev[b - 1]@);
                }
            } else if a < i && b > i {
                assert(r@[a] == prev[a]);
                assert(r@[b] == prev[b - 1]);
            } else if a > i {
                assert(r@[a] == prev[a - 1]);
                assert(r@[b] == prev[b - 1]);
            } else {
                assert(r@[a] == prev[a]);
                assert(r@[b] == prev[b]);
            }
        }
        assert forall|x: Seq<char>| #[trigger] strs(r@).contains(x) <==> (strs(prev).contains(x) || x == k@) by {
            if strs(r@).contains(x) {
                let j = choose|j: int| 0 <= j < strs(r@).len() && strs(r@)[j] == x;
                if j < i {
                    assert(strs(prev)[j] == x);
                } else if j > i {
                    assert(strs(prev)[j - 1] == x);
                }
            }
            if strs(prev).contains(x) {
                let j = choose|j: int| 0 <= j < strs(prev).len() && strs(prev)[j] == x;
                if j < i {
                    assert(strs(r@)[j] == x);
                } else {
                    assert(strs(r@)[j + 1] == x);
                }
            }
            if x == k@ {
                assert(strs(r@)[i as int] == x);
            }
        }
    }
}

/// Put `p` into the strictly ascending `r`, unless it is there.
fn insert_prio(r: &mut Vec<u8>, p: u8)
    requires
        forall|i: int, j: int| 0 <= i < j < old(r)@.len() ==> #[trigger] old(r)@[i] < #[trigger] old(r)@[j],
    ensures
        forall|i: int, j: int| 0 <= i < j < final(r)@.len() ==> #[trigger] final(r)@[i] < #[trigger] final(r)@[j],
        forall|x: u8| #[trigger] final(r)@.contains(x) <==> (old(r)@.contains(x) || x == p),
{
    let mut i: usize = 0;
    while i < r.len() && r[i] < p
        invariant
            i <= r.len(),
            forall|m: int| 0 <= m < i ==> #[trigger] r@[m] < p,
        decreases r.len() - i,
    {
        i += 1;
    }
    if i < r.len() && r[i] == p {
        return;
    }
    let ghost prev = r@;
    r.insert(i, p);
    proof {
        assert(r@ == prev.insert(i as int, p));
        assert forall|a: int, b: int| 0 <= a < b < r@.len() implies #[trigger] r@[a] < #[trigger] r@[b] by {
            if a < i && b == i {
                assert(r@[a] == prev[a]);
            } else if a == i && b > i {
                assert(r@[b] == prev[b - 1]);
            } else if a < i && b > i {
                assert(r@[a] == prev[a]);
                assert(r@[b] == prev[b - 1]);
            } else if a > i {
                assert(r@[a] == prev[a - 1]);
                assert(r@[b] == prev[b - 1]);
            } else {
                assert(r@[a] == prev[a]);
                assert(r@[b] == prev[b]);
            }
        }
        assert forall|x: u8| #[trigger] r@.contains(x) <==> (prev.contains(x) || x == p) by {
            if r@.contains(x) {
                let j = choose|j: int| 0 <= j < r@.len() && r@[j] == x;
                if j < i {
                    assert(prev[j] == x);
                } else if j > i {
                    assert(prev[j - 1] == x);
                }
            }
            if prev.contains(x) {
                let j = choose|j: int| 0 <= j < prev.len() && prev[j] == x;
                if j < i {
                    assert(r@[j] == x);
                } else {
                    assert(r@[j + 1] == x);
                }
            }
            if x == p {
                assert(r@[i as int] == x);
            }
        }
    }
}

/// The distinct types and priorities of the live tasks, strictly ascending.
fn live_keys(tasks: &Vec<Task>) -> (r: (Vec<String>, Vec<u8>))
    ensures
        forall|i: int, j: int| 0 <= i < j < r.0@.len() ==> seq_lt(#[trigger] r.0@[i]@, #[trigger] r.0@[j]@),
        forall|x: Seq<char>| #[trigger] strs(r.0@).contains(x) <==> live_kinds(tviews(tasks@)).contains(x),
        forall|i: int, j: int| 0 <= i < j < r.1@.len() ==> #[trigger] r.1@[i] < #[trigger] r.1@[j],
        forall|x: u8| #[trigger] r.1@.contains(x) <==> live_prios(tviews(tasks@)).contains(x),
{
    let ghost tv = tviews(tasks@);
    let mut kinds: Vec<String> = Vec::new();
    let mut prios: Vec<u8> = Vec::new();
    let mut n: usize = 0;
    assert(live_kinds(tv.take(0)) =~= Seq::<Seq<char>>::empty());
    assert(live_prios(tv.take(0)) =~= Seq::<u8>::empty());
    while n < tasks.len()
        invariant
            n <= tasks.len(),
            tv == tviews(tasks@),
            forall|i: int, j: int| 0 <= i < j < kinds@.len() ==> seq_lt(#[trigger] kinds@[i]@, #[trigger] kinds@[j]@),
            forall|x: Seq<char>| #[trigger] strs(kinds@).contains(x) <==> live_kinds(tv.take(n as int)).contains(x),
            forall|i: int, j: int| 0 <= i < j < prios@.len() ==> #[trigger] prios@[i] < #[trigger] prios@[j],
            forall|x: u8| #[trigger] prios@.contains(x) <==> live_prios(tv.take(n as int)).contains(x),
        decreases tasks.len() - n,
    {
        let t = &tasks[n];
        proof {
            assert(tv[n as int] == t@);
            assert(tv.take(n + 1) == tv.take(n as int).push(t@));
            lemma_live_push(tv.take(n as int), t@);
        }
        let ghost k0 = strs(kinds@);
        let ghost p0 = prios@;
        let ghost lk = live_kinds(tv.take(n as int));
        let ghost lp = live_prios(tv.take(n as int));
        if t.status != Status::Dead {
            insert_key(&mut kinds, &t.kind);
            insert_prio(&mut prios, t.priority);
            proof {
                assert forall|x: Seq<char>| #[trigger] strs(kinds@).contains(x) <==> lk.push(t@.kind).contains(x) by {
                    if x == t@.kind {
                        assert(lk.push(t@.kind)[lk.len() as int] == x);
                    }
                    if lk.push(t@.kind).contains(x) && x != t@.kind {
                        let j = choose|j: int| 0 <= j < lk.push(t@.kind).len() && lk.push(t@.kind)[j] == x;
                        assert(lk[j] == x);
                    }
                    if lk.contains(x) {
                        let j = choose|j: int| 0 <= j < lk.len() && lk[j] == x;
                        assert(lk.push(t@.kind)[j] == x);
                    }
                }
                assert forall|x: u8| #[trigger] prios@.contains(x) <==> lp.push(t@.priority).contains(x) by {
                    if x == t@.priority {
                        assert(lp.push(t@.priority)[lp.len() as int] == x);
                    }
                    if lp.push(t@.priority).contains(x) && x != t@.priority {
                        let j = choose|j: int| 0 <= j < lp.push(t@.priority).len() && lp.push(t@.priority)[j] == x;
                        assert(lp[j] == x);
                    }
                    if lp.contains(x) {
                        let j = choose|j: int| 0 <= j < lp.len() && lp[j] == x;
                        assert(lp.push(t@.priority)[j] == x);
                    }
                }
            }
        }
        n += 1;
    }
    assert(tv.take(tasks.len() as int) == tv);
    (kinds, prios)
}

fn count_type(tasks: &Vec<Task>, k: &String) -> (c: usize)
    ensures
        c == type_count(tviews(tasks@), k@),
{
    let ghost tv = tviews(tasks@);
    let mut c: usize = 0;
    let mut i: usize = 0;
    while i < tasks.len()
        invariant
            i <= tasks.len(),
            tv == tviews(tasks@),
            c == type_count(tv.take(i as int), k@),
        decreases tasks.len() - i,
    {
        proof {
            assert(tv.take(i + 1).drop_last() == tv.take(i as int));
            lemma_counts_bounded(tv.take(i as int), k@, 0, Status::Dead);
        }
        if tasks[i].status != Status::Dead && same(tasks[i].kind.as_str(), k.as_str()) {
            c += 1;
        }
        i += 1;
    }
    assert(tv.take(tasks.len() as int) == tv);
    c
}

fn count_priority(tasks: &Vec<Task>, p: u8) -> (c: usize)
    ensures
        c == priority_count(tviews(tasks@), p),
{
    let ghost tv = tviews(tasks@);
    let mut c: usize = 0;
    let mut i: usize = 0;
    while i < tasks.len()
        invariant
            i <= tasks.len(),
            tv == tviews(tasks@),
            c == priority_count(tv.take(i as int), p),
        decreases tasks.len() - i,
    {
        proof {
            assert(tv.take(i + 1).drop_last() == tv.take(i as int));
            lemma_counts_bounded(tv.take(i as int), seq![], p, Status::Dead);
        }
        if tasks[i].status != Status::Dead && tasks[i].priority == p {
            c += 1;
        }
        i += 1;
    }
    assert(tv.take(tasks.len() as int) == tv);
    c
}

fn count_status(tasks: &Vec<Task>, st: Status) -> (c: usize)
    ensures
        c == status_count(tviews(tasks@), st),
{
    let ghost tv = tviews(tasks@);
    let mut c: usize = 0;
    let mut i: usize = 0;
    while i < tasks.len()
        invariant
            i <= tasks.len(),
            tv == tviews(tasks@),
            c == status_count(tv.take(i as int), st),
        decreases tasks.len() - i,
    {
        proof {
            assert(tv.take(i + 1).drop_last() == tv.take(i as int));
            lemma_counts_bounded(tv.take(i as int), seq![], 0, st);
        }
        if tasks[i].status == st {
            c += 1;
        }
        i += 1;
    }
    assert(tv.take(tasks.len() as int) == tv);
    c
}

fn count_live(tasks: &Vec<Task>) -> (c: usize)
    ensures
        c == live_count(tviews(tasks@)),
{
    let ghost tv = tviews(tasks@);
    let mut c: usize = 0;
    let mut i: usize = 0;
    while i < tasks.len()
        invariant
            i <= tasks.len(),
            tv == tviews(tasks@),
            c == live_count(tv.take(i as int)),
        decreases tasks.len() - i,
    {
        proof {
            assert(tv.take(i + 1).drop_last() == tv.take(i as int));
            lemma_counts_bounded(tv.take(i as int), seq![], 0, Status::Dead);
        }
        if tasks[i].status != Status::Dead {
            c += 1;
        }
        i += 1;
    }
    assert(tv.take(tasks.len() as int) == tv);
    c
}

impl Farm {
    /// Counts over the live (not dead) tasks: in total, per status, and per
    /// type and priority (ascending).
    pub fn stats(&self) -> (r: Stats)
        ensures
            r.total == live_count(tviews(self.tasks@)),
            r.hairy == status_count(tviews(self.tasks@), Status::Hairy),
            r.shaving == status_count(tviews(self.tasks@), Status::Shaving),
            r.shorn == status_count(tviews(self.tasks@), Status::Shorn),
            type_table(type_rows(r.by_type@), tviews(self.tasks@)),
            priority_table(priority_rows(r.by_priority@), tviews(self.tasks@)),
    {
        let ghost tv = tviews(self.tasks@);
        let (kinds, prios) = live_keys(&self.tasks);
        let mut by_type: Vec<(String, usize)> = Vec::new();
        let mut i: usize = 0;
        while i < kinds.len()
            invariant
                i <= kinds.len(),
                tv == tviews(self.tasks@),
                type_rows(by_type@) == kinds@.take(i as int).map_values(|k: String| (k@, type_count(tv, k@))),
            decreases kinds.len() - i,
        {
            let c = count_type(&self.tasks, &kinds[i]);
            let ghost before = by_type@;
            by_type.push((kinds[i].clone(), c));
            assert(type_rows(by_type@) =~= type_rows(before).push((kinds@[i as int]@, c as nat)));
            assert(kinds@.take(i + 1) == kinds@.take(i as int).push(kinds@[i as int]));
            assert(kinds@.take(i + 1).map_values(|k: String| (k@, type_count(tv, k@))) =~= kinds@.take(i as int).map_values(|k: String| (k@, type_count(tv, k@))).push((kinds@[i as int]@, type_count(tv, kinds@[i as int]@))));
            i += 1;
        }
        proof {
            assert(kinds@.take(kinds.len() as int) == kinds@);
            let t = type_rows(by_type@);
            assert(t.map_values(|e: (Seq<char>, nat)| e.0) =~= strs(kinds@));
        }
        let mut by_priority: Vec<(u8, usize)> = Vec::new();
        let mut i: usize = 0;
        while i < prios.len()
            invariant
                i <= prios.len(),
                tv == tviews(self.tasks@),
                priority_rows(by_priority@) == prios@.take(i as int).map_values(|p: u8| (p, priority_count(tv, p))),
            decreases prios.len() - i,
        {
            let c = count_priority(&self.tasks, prios[i]);
            let ghost before = by_priority@;
            by_priority.push((prios[i], c));
            assert(priority_rows(by_priority@) =~= priority_rows(before).push((prios@[i as int], c as nat)));
            assert(prios@.take(i + 1) == prios@.take(i as int).push(prios@[i as int]));
            assert(prios@.take(i + 1).map_values(|p: u8| (p, priority_count(tv, p))) =~= prios@.take(i as int).map_values(|p: u8| (p, priority_count(tv, p))).push((prios@[i as int], priority_count(tv, prios@[i as int]))));
            i += 1;
        }
        proof {
            assert(prios@.take(prios.len() as int) == prios@);
            let t = priority_rows(by_priority@);
            assert(t.map_values(|e: (u8, nat)| e.0) =~= prios@);
        }
        Stats {
            total: count_live(&self.tasks),
            hairy: count_status(&self.tasks, Status::Hairy),
            shaving: count_status(&self.tasks, Status::Shaving),
            shorn: count_status(&self.tasks, Status::Shorn),
            by_type,
            by_priority,
        }
    }
}

/// The live (not dead) tasks.
pub open spec fn live_tasks(tv: Seq<TaskView>) -> Seq<TaskView> {
    tv.filter(|t: TaskView| t.status != Status::Dead)
}

impl Farm {
    /// The effective per-farm config.
    pub fn config(&self) -> (r: crate::store::config::Config)
        ensures
            r@ == self.config@,
    {
        self.config.copy()
    }

    /// The live yaks `spec` keeps, grouped by effective source (see
    /// [`crate::rollup::build`]), over the live set.
    pub fn rollup(&self, spec: &FilterSpec) -> (r: (Vec<crate::rollup::Group>, usize))
        ensures
            ({
                let tv = live_tasks(tviews(self.tasks@));
                let ps = tv.filter(|t: TaskView| spec.keeps(tv, t, false));
                &&& r.1 == crate::rollup::unsourced_count(tv, ps)
                &&& crate::rollup::groups_sorted(r.0@)
                &&& crate::rollup::sources_distinct(r.0@)
                &&& forall|i: int| 0 <= i < r.0@.len() ==> {
                    let g = #[trigger] r.0@[i];
                    &&& (g.tracker@, ostr(g.key)) == crate::rollup::tracker_spec(g.source@)
                    &&& crate::rollup::item_views(g.yaks@).len() > 0
                    &&& crate::rollup::items_sorted(crate::rollup::item_views(g.yaks@))
                    &&& crate::rollup::item_views(g.yaks@).to_multiset() == crate::rollup::members(tv, ps, g.source@).to_multiset()
                }
                &&& forall|k: int| 0 <= k < ps.len() && (#[trigger] crate::rollup::effective(tv, ps[k].id)).0 is Some ==> exists|i: int|
                    0 <= i < r.0@.len() && Some(r.0@[i].source@) == crate::rollup::effective(tv, ps[k].id).0
            }),
    {
        let ghost tv = tviews(self.tasks@);
        let ghost p = |t: TaskView| t.status != Status::Dead;
        let mut live: Vec<Task> = Vec::new();
        let mut i: usize = 0;
        assert(tv.take(0).filter(p) =~= Seq::empty());
        while i < self.tasks.len()
            invariant
                i <= self.tasks.len(),
                tv == tviews(self.tasks@),
                p == (|t: TaskView| t.status != Status::Dead),
                tviews(live@) == tv.take(i as int).filter(p),
            decreases self.tasks.len() - i,
        {
            proof {
                assert(tv.take(i + 1) == tv.take(i as int).push(tv[i as int]));
                tv.take(i as int).lemma_filter_push(tv[i as int], p);
            }
            if self.tasks[i].status != Status::Dead {
                let ghost before = live@;
                live.push(self.tasks[i].duplicate());
                assert(tviews(live@) =~= tviews(before).push(tv[i as int]));
            }
            i += 1;
        }
        assert(tv.take(self.tasks.len() as int) == tv);
        crate::rollup::build(&live, spec)
    }
}

} // verus!
