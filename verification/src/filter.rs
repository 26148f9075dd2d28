//! Shared task filtering and dependency resolution. Semantics: AND across
//! fields; OR within a multi-value field; an empty field is unconstrained.
//!
//! A dependency counts as resolved when its task is shorn or dead, so
//! slaughtering a blocker unblocks its dependents.

use vstd::prelude::*;
use crate::text::{chars_of, push_str, contains, contains_seq};
use crate::model::{Status, Task, TaskView, strs, ostr, tviews, resolved_status};

verus! {

/// What `str::to_lowercase` returns for a string (full Unicode case mapping).
pub uninterp spec fn lowercase(s: Seq<char>) -> Seq<char>;

/// Calls `str::to_lowercase`; the result is named [`lowercase`] of the input.
#[verifier::external_body]
fn to_lowercase(s: &str) -> (r: String)
    ensures
        r@ == lowercase(s@),
{
    s.to_lowercase()
}

/// A set of task predicates.
pub struct FilterSpec {
    /// Empty = unconstrained (the caller's default scope applies).
    pub statuses: Vec<Status>,
    pub types: Vec<String>,
    pub priorities: Vec<u8>,
    pub labels: Vec<String>,
    pub search: Option<String>,
    pub ready_only: bool,
    pub tangled_only: bool,
    /// Descendant-of scope (a task id); matches its descendants at any depth.
    pub parent: Option<String>,
}

impl Default for FilterSpec {
    fn default() -> (r: FilterSpec)
        ensures
            r.statuses@.len() == 0,
            r.types@.len() == 0,
            r.priorities@.len() == 0,
            r.labels@.len() == 0,
            r.search is None,
            !r.ready_only,
            !r.tangled_only,
            r.parent is None,
    {
        FilterSpec {
            statuses: Vec::new(),
            types: Vec::new(),
            priorities: Vec::new(),
            labels: Vec::new(),
            search: None,
            ready_only: false,
            tangled_only: false,
            parent: None,
        }
    }
}

/// The text a search looks in: title, body and id, space-separated.
pub open spec fn search_blob(t: TaskView) -> Seq<char> {
    t.title + seq![' '] + t.body + seq![' '] + t.id
}

/// `t` depends on a task outside `resolved`.
pub open spec fn has_unresolved(t: TaskView, resolved: Seq<Seq<char>>) -> bool {
    exists|k: int| 0 <= k < t.depends_on.len() && !resolved.contains(t.depends_on[k])
}

/// The per-task content predicate (status and parent scope aside).
pub open spec fn matches_spec(
    types: Seq<Seq<char>>,
    priorities: Seq<u8>,
    labels: Seq<Seq<char>>,
    search: Option<Seq<char>>,
    ready_only: bool,
    tangled_only: bool,
    t: TaskView,
    resolved: Seq<Seq<char>>,
) -> bool {
    &&& (types.len() == 0 || types.contains(t.kind))
    &&& (priorities.len() == 0 || priorities.contains(t.priority))
    &&& (labels.len() == 0 || exists|k: int| 0 <= k < t.labels.len() && labels.contains(t.labels[k]))
    &&& match search {
        Some(q) => contains_seq(lowercase(search_blob(t)), lowercase(q)),
        None => true,
    }
    &&& !(ready_only && (has_unresolved(t, resolved) || t.needs is Some))
    &&& !(tangled_only && !has_unresolved(t, resolved))
}

impl FilterSpec {
    pub open spec fn matches_view(&self, t: TaskView, resolved: Seq<Seq<char>>) -> bool {
        matches_spec(
            strs(self.types@),
            self.priorities@,
            strs(self.labels@),
            ostr(self.search),
            self.ready_only,
            self.tangled_only,
            t,
            resolved,
        )
    }

    /// True when any content predicate is set (status and parent scope
    /// excluded).
    pub fn content_active(&self) -> (b: bool)
        ensures
            b == (self.types@.len() > 0 || self.priorities@.len() > 0 || self.labels@.len() > 0
                || (self.search matches Some(s) && s@.len() > 0) || self.ready_only
                || self.tangled_only),
    {
        let search_set = match &self.search {
            Some(s) => chars_of(s.as_str()).len() > 0,
            None => false,
        };
        self.types.len() > 0 || self.priorities.len() > 0 || self.labels.len() > 0 || search_set
            || self.ready_only || self.tangled_only
    }

    /// The per-task content predicate, shared by [`apply`] and the tree's
    /// focus computation.
    pub fn matches(&self, t: &Task, resolved: &Vec<String>) -> (b: bool)
        ensures
            b == self.matches_view(t@, strs(resolved@)),
    {
        if self.types.len() > 0 && !has_string(&self.types, &t.kind) {
            return false;
        }
        if self.priorities.len() > 0 && !has_u8(&self.priorities, t.priority) {
            return false;
        }
        if self.labels.len() > 0 && !any_shared(&t.labels, &self.labels) {
            return false;
        }
        match &self.search {
            Some(q) => {
                let ql = to_lowercase(q.as_str());
                let mut blob: Vec<char> = Vec::new();
                push_str(&mut blob, t.title.as_str());
                blob.push(' ');
                push_str(&mut blob, t.body.as_str());
                blob.push(' ');
                push_str(&mut blob, t.id.as_str());
                assert(blob@ =~= search_blob(t@));
                let bs = crate::text::string_of(&blob);
                let bl = to_lowercase(bs.as_str());
                let blc = chars_of(bl.as_str());
                let qlc = chars_of(ql.as_str());
                assert(blc@ == lowercase(search_blob(t@)));
                assert(qlc@ == lowercase(q@));
                assert(ostr(self.search) == Some(q@));
                if !contains(&blc, &qlc) {
                    return false;
                }
            },
            None => {},
        }
        let unresolved = any_missing(&t.depends_on, resolved);
        assert(unresolved == has_unresolved(t@, strs(resolved@))) by {
            if unresolved {
                let k = choose|k: int| 0 <= k < strs(t.depends_on@).len() && !strs(resolved@).contains(strs(t.depends_on@)[k]);
                assert(!strs(resolved@).contains(t@.depends_on[k]));
            }
            if has_unresolved(t@, strs(resolved@)) {
                let k = choose|k: int| 0 <= k < t@.depends_on.len() && !strs(resolved@).contains(t@.depends_on[k]);
                assert(!strs(resolved@).contains(strs(t.depends_on@)[k]));
            }
        }
        assert(t.needs.is_some() == (t@.needs is Some));
        if self.ready_only && (unresolved || t.needs.is_some()) {
            return false;
        }
        if self.tangled_only && !unresolved {
            return false;
        }
        true
    }
}

/// Whether `v` holds `s`.
pub fn has_string(v: &Vec<String>, s: &String) -> (b: bool)
    ensures
        b == strs(v@).contains(s@),
{
    let mut i: usize = 0;
    while i < v.len()
        invariant
            i <= v.len(),
            forall|j: int| 0 <= j < i ==> v@[j]@ != s@,
        decreases v.len() - i,
    {
        if v[i] == *s {
            assert(strs(v@)[i as int] == s@);
            return true;
        }
        i += 1;
    }
    proof {
        if strs(v@).contains(s@) {
            let k = choose|k: int| 0 <= k < strs(v@).len() && strs(v@)[k] == s@;
            assert(v@[k]@ == s@);
        }
    }
    false
}

fn has_u8(v: &Vec<u8>, x: u8) -> (b: bool)
    ensures
        b == v@.contains(x),
{
    let mut i: usize = 0;
    while i < v.len()
        invariant
            i <= v.len(),
            forall|j: int| 0 <= j < i ==> v@[j] != x,
        decreases v.len() - i,
    {
        if v[i] == x {
            return true;
        }
        i += 1;
    }
    false
}

/// Some element of `a` is in `b`.
fn any_shared(a: &Vec<String>, b: &Vec<String>) -> (r: bool)
    ensures
        r == exists|k: int| 0 <= k < strs(a@).len() && strs(b@).contains(strs(a@)[k]),
{
    let mut i: usize = 0;
    while i < a.len()
        invariant
            i <= a.len(),
            forall|k: int| 0 <= k < i ==> !strs(b@).contains(strs(a@)[k]),
        decreases a.len() - i,
    {
        if has_string(b, &a[i]) {
            assert(strs(a@)[i as int] == a@[i as int]@);
            return true;
        }
        i += 1;
    }
    false
}

/// Some element of `a` is not in `b`.
fn any_missing(a: &Vec<String>, b: &Vec<String>) -> (r: bool)
    ensures
        r == exists|k: int| 0 <= k < strs(a@).len() && !strs(b@).contains(strs(a@)[k]),
{
    let mut i: usize = 0;
    while i < a.len()
        invariant
            i <= a.len(),
            forall|k: int| 0 <= k < i ==> strs(b@).contains(strs(a@)[k]),
        decreases a.len() - i,
    {
        if !has_string(b, &a[i]) {
            assert(strs(a@)[i as int] == a@[i as int]@);
            return true;
        }
        i += 1;
    }
    false
}

/// The ids of the resolved (shorn or dead) tasks, in order.
pub open spec fn resolved_spec(tasks: Seq<TaskView>) -> Seq<Seq<char>> {
    tasks.filter(|t: TaskView| resolved_status(t.status)).map_values(|t: TaskView| t.id)
}

/// Ids that count as "dependency satisfied": shorn and dead tasks.
pub fn resolved_ids(tasks: &Vec<Task>) -> (r: Vec<String>)
    ensures
        strs(r@) == resolved_spec(tviews(tasks@)),
{
    let ghost p = |t: TaskView| resolved_status(t.status);
    let ghost f = |t: TaskView| t.id;
    let mut r: Vec<String> = Vec::new();
    let mut i: usize = 0;
    assert(tviews(tasks@).take(0).filter(p).map_values(f) =~= Seq::<Seq<char>>::empty());
    while i < tasks.len()
        invariant
            i <= tasks.len(),
            p == (|t: TaskView| resolved_status(t.status)),
            f == (|t: TaskView| t.id),
            strs(r@) == tviews(tasks@).take(i as int).filter(p).map_values(f),
        decreases tasks.len() - i,
    {
        proof {
            assert(tviews(tasks@).take(i + 1) == tviews(tasks@).take(i as int).push(tasks@[i as int]@));
            tviews(tasks@).take(i as int).lemma_filter_push(tasks@[i as int]@, p);
        }
        if tasks[i].status.is_resolved() {
            let ghost before = r@;
            r.push(tasks[i].id.clone());
            assert(strs(r@) =~= strs(before).push(tasks@[i as int].id@));
            assert(tviews(tasks@).take(i as int).filter(p).push(tasks@[i as int]@).map_values(f) =~= tviews(tasks@).take(i as int).filter(p).map_values(f).push(tasks@[i as int].id@));
        }
        i += 1;
    }
    assert(tviews(tasks@).take(tasks.len() as int) == tviews(tasks@));
    r
}

/// Unresolved dependencies of a task, in declared order.
pub fn unresolved_deps(t: &Task, resolved: &Vec<String>) -> (r: Vec<String>)
    ensures
        strs(r@) == strs(t.depends_on@).filter(|d: Seq<char>| !strs(resolved@).contains(d)),
{
    let ghost p = |d: Seq<char>| !strs(resolved@).contains(d);
    let mut r: Vec<String> = Vec::new();
    let mut i: usize = 0;
    assert(strs(t.depends_on@).take(0).filter(p) =~= Seq::<Seq<char>>::empty());
    while i < t.depends_on.len()
        invariant
            i <= t.depends_on.len(),
            p == (|d: Seq<char>| !strs(resolved@).contains(d)),
            strs(r@) == strs(t.depends_on@).take(i as int).filter(p),
        decreases t.depends_on.len() - i,
    {
        proof {
            assert(strs(t.depends_on@).take(i + 1) == strs(t.depends_on@).take(i as int).push(
                t.depends_on@[i as int]@,
            ));
            strs(t.depends_on@).take(i as int).lemma_filter_push(t.depends_on@[i as int]@, p);
        }
        if !has_string(resolved, &t.depends_on[i]) {
            let ghost before = r@;
            r.push(t.depends_on[i].clone());
            assert(strs(r@) =~= strs(before).push(t.depends_on@[i as int]@));
        }
        i += 1;
    }
    assert(strs(t.depends_on@).take(t.depends_on.len() as int) == strs(t.depends_on@));
    r
}

// ---------------------------------------------------------------------------
// reachability
// ---------------------------------------------------------------------------

/// `b` is a child of `a`: some task with id `b` (not dead, unless dead ones
/// are included) names `a` as its parent.
pub open spec fn child_edge(tasks: Seq<TaskView>, a: Seq<char>, b: Seq<char>, include_dead: bool) -> bool {
    exists|i: int|
        0 <= i < tasks.len() && #[trigger] tasks[i].parent == Some(a) && tasks[i].id == b && (
        include_dead || tasks[i].status != Status::Dead)
}

/// A chain of parent-to-child steps.
pub open spec fn child_path(tasks: Seq<TaskView>, p: Seq<Seq<char>>, include_dead: bool) -> bool {
    p.len() >= 2 && forall|k: int|
        0 <= k < p.len() - 1 ==> child_edge(tasks, #[trigger] p[k], p[k + 1], include_dead)
}

/// `d` is a descendant of `root` at any depth.
pub open spec fn is_descendant(tasks: Seq<TaskView>, root: Seq<char>, d: Seq<char>, include_dead: bool) -> bool {
    exists|p: Seq<Seq<char>>| child_path(tasks, p, include_dead) && p[0] == root && p.last() == d
}

/// The ids of the tasks, in order.
pub open spec fn ids_of(tasks: Seq<TaskView>) -> Seq<Seq<char>> {
    tasks.map_values(|t: TaskView| t.id)
}

proof fn lemma_push_keeps<A>(s: Seq<A>, y: A)
    ensures
        forall|x: A| s.contains(x) ==> #[trigger] s.push(y).contains(x),
        s.push(y).contains(y),
{
    assert forall|x: A| s.contains(x) implies #[trigger] s.push(y).contains(x) by {
        let k = choose|k: int| 0 <= k < s.len() && s[k] == x;
        assert(s.push(y)[k] == x);
    }
    assert(s.push(y)[s.len() as int] == y);
}

proof fn lemma_nodup_len<A>(a: Seq<A>, b: Seq<A>)
    requires
        a.no_duplicates(),
        forall|x: A| a.contains(x) ==> b.contains(x),
    ensures
        a.len() <= b.len(),
{
    a.unique_seq_to_set();
    b.lemma_cardinality_of_set();
    assert(a.to_set().subset_of(b.to_set()));
    vstd::set_lib::lemma_len_subset(a.to_set(), b.to_set());
}

fn contains_string(v: &Vec<String>, s: &String) -> (b: bool)
    ensures
        b == strs(v@).contains(s@),
{
    has_string(v, s)
}

/// Facts about a partial descendant list: distinct task ids, each a
/// descendant of `root`.
#[verifier::opaque]
spec fn desc_ok(tv: Seq<TaskView>, root: Seq<char>, out: Seq<Seq<char>>, inc: bool) -> bool {
    &&& out.no_duplicates()
    &&& forall|x: Seq<char>| out.contains(x) ==> ids_of(tv).contains(x)
    &&& forall|x: Seq<char>| out.contains(x) ==> is_descendant(tv, root, x, inc)
}

/// Every child of `node` among the first `upto` tasks is in `out`.
#[verifier::opaque]
spec fn kids_in(tv: Seq<TaskView>, node: Seq<char>, out: Seq<Seq<char>>, inc: bool, upto: int) -> bool {
    forall|m: int|
        0 <= m < upto && m < tv.len() && #[trigger] tv[m].parent == Some(node) && (inc || tv[m].status
            != Status::Dead) ==> out.contains(tv[m].id)
}

/// The children of each of the first `i` entries of `out` are in `out`.
#[verifier::opaque]
spec fn closed_upto(tv: Seq<TaskView>, out: Seq<Seq<char>>, inc: bool, i: int) -> bool {
    forall|k: int| 0 <= k < i && k < out.len() ==> #[trigger] kids_in(tv, out[k], out, inc, tv.len() as int)
}

proof fn lemma_kids_in_grow(tv: Seq<TaskView>, node: Seq<char>, out: Seq<Seq<char>>, x: Seq<char>, inc: bool, upto: int)
    requires
        kids_in(tv, node, out, inc, upto),
    ensures
        kids_in(tv, node, out.push(x), inc, upto),
{
    reveal(kids_in);
    lemma_push_keeps(out, x);
}

proof fn lemma_closed_grow(tv: Seq<TaskView>, out: Seq<Seq<char>>, x: Seq<char>, inc: bool, i: int)
    requires
        closed_upto(tv, out, inc, i),
        i <= out.len(),
    ensures
        closed_upto(tv, out.push(x), inc, i),
{
    reveal(closed_upto);
    assert forall|k: int| 0 <= k < i && k < out.push(x).len() implies #[trigger] kids_in(tv, out.push(x)[k], out.push(x), inc, tv.len() as int) by {
        assert(out.push(x)[k] == out[k]);
        assert(kids_in(tv, out[k], out, inc, tv.len() as int));
        lemma_kids_in_grow(tv, out[k], out, x, inc, tv.len() as int);
    }
}

/// Adding a child of a known descendant (or of the root) keeps `desc_ok`.
proof fn lemma_desc_push(tv: Seq<TaskView>, root: Seq<char>, out: Seq<Seq<char>>, node: Seq<char>, m: int, inc: bool)
    requires
        desc_ok(tv, root, out, inc),
        node == root || out.contains(node),
        0 <= m < tv.len(),
        tv[m].parent == Some(node),
        inc || tv[m].status != Status::Dead,
        !out.contains(tv[m].id),
    ensures
        desc_ok(tv, root, out.push(tv[m].id), inc),
{
    reveal(desc_ok);
    let x = tv[m].id;
    let n = out.push(x);
    lemma_push_keeps(out, x);
    assert(ids_of(tv)[m] == x);
    assert(child_edge(tv, node, x, inc));
    let p = if node == root {
        seq![root, x]
    } else {
        let q = choose|q: Seq<Seq<char>>| child_path(tv, q, inc) && q[0] == root && q.last() == node;
        q.push(x)
    };
    assert(child_path(tv, p, inc)) by {
        if node != root {
            let q = p.drop_last();
            assert(child_path(tv, q, inc) && q.last() == node);
            assert forall|k: int| 0 <= k < p.len() - 1 implies child_edge(tv, #[trigger] p[k], p[k + 1], inc) by {
                if k < q.len() - 1 {
                    assert(p[k] == q[k] && p[k + 1] == q[k + 1]);
                } else {
                    assert(p[k] == node && p[k + 1] == x);
                }
            }
        }
    }
    assert(p[0] == root && p.last() == x);
    assert(is_descendant(tv, root, x, inc));
    assert(ids_of(tv).contains(x));
    assert(n.no_duplicates()) by {
        assert forall|a: int, b: int| 0 <= a < n.len() && 0 <= b < n.len() && a != b implies n[a] != n[b] by {
            if a == out.len() {
                assert(out.contains(n[b]) || b == a);
            }
            if b == out.len() {
                assert(out.contains(n[a]) || b == a);
            }
        }
    }
    assert forall|y: Seq<char>| n.contains(y) implies ids_of(tv).contains(y) && is_descendant(tv, root, y, inc) by {
        if y != x {
            let k = choose|k: int| 0 <= k < n.len() && n[k] == y;
            assert(out[k] == y);
            assert(out.contains(y));
        }
    }
}

/// All descendants of `root_id` at any depth, following `parent` pointers
/// (each once).
pub fn descendant_ids(tasks: &Vec<Task>, root_id: &String, include_dead: bool) -> (out: Vec<String>)
    ensures
        strs(out@).no_duplicates(),
        forall|d: Seq<char>|
            strs(out@).contains(d) <==> is_descendant(tviews(tasks@), root_id@, d, include_dead),
{
    let ghost tv = tviews(tasks@);
    let mut out: Vec<String> = Vec::new();
    proof {
        reveal(desc_ok);
        reveal(kids_in);
        assert(strs(out@) =~= Seq::<Seq<char>>::empty());
    }
    // the children of the root
    let mut j: usize = 0;
    while j < tasks.len()
        invariant
            tv == tviews(tasks@),
            j <= tasks.len(),
            desc_ok(tv, root_id@, strs(out@), include_dead),
            kids_in(tv, root_id@, strs(out@), include_dead, j as int),
        decreases tasks.len() - j,
    {
        let t = &tasks[j];
        let pass = match &t.parent {
            Some(p) => *p == *root_id && (include_dead || t.status != Status::Dead),
            None => false,
        };
        let ghost before = strs(out@);
        proof {
            assert(tv[j as int] == t@);
        }
        if pass && !contains_string(&out, &t.id) {
            out.push(t.id.clone());
            proof {
                assert(strs(out@) =~= before.push(t.id@));
                lemma_desc_push(tv, root_id@, before, root_id@, j as int, include_dead);
                lemma_kids_in_grow(tv, root_id@, before, t.id@, include_dead, j as int);
                lemma_push_keeps(before, t.id@);
            }
        }
        proof {
            reveal(kids_in);
        }
        j += 1;
    }
    proof {
        reveal(desc_ok);
        lemma_nodup_len(strs(out@), ids_of(tv));
        reveal(closed_upto);
    }
    // breadth-first closure
    let mut i: usize = 0;
    while i < out.len()
        invariant
            tv == tviews(tasks@),
            i <= out.len(),
            out.len() <= tasks.len(),
            desc_ok(tv, root_id@, strs(out@), include_dead),
            kids_in(tv, root_id@, strs(out@), include_dead, tv.len() as int),
            closed_upto(tv, strs(out@), include_dead, i as int),
        decreases tasks.len() - i,
    {
        let cur = out[i].clone();
        proof {
            reveal(kids_in);
        }
        let mut j: usize = 0;
        while j < tasks.len()
            invariant
                tv == tviews(tasks@),
                i < out.len(),
                cur@ == strs(out@)[i as int],
                j <= tasks.len(),
                desc_ok(tv, root_id@, strs(out@), include_dead),
                kids_in(tv, root_id@, strs(out@), include_dead, tv.len() as int),
                closed_upto(tv, strs(out@), include_dead, i as int),
                kids_in(tv, cur@, strs(out@), include_dead, j as int),
            decreases tasks.len() - j,
        {
            let t = &tasks[j];
            let pass = match &t.parent {
                Some(p) => *p == cur && (include_dead || t.status != Status::Dead),
                None => false,
            };
            let ghost before = strs(out@);
            proof {
                assert(tv[j as int] == t@);
            }
            if pass && !contains_string(&out, &t.id) {
                out.push(t.id.clone());
                proof {
                    assert(strs(out@) =~= before.push(t.id@));
                    assert(before.contains(cur@)) by {
                        assert(before[i as int] == cur@);
                    }
                    lemma_desc_push(tv, root_id@, before, cur@, j as int, include_dead);
                    lemma_kids_in_grow(tv, root_id@, before, t.id@, include_dead, tv.len() as int);
                    lemma_kids_in_grow(tv, cur@, before, t.id@, include_dead, j as int);
                    lemma_closed_grow(tv, before, t.id@, include_dead, i as int);
                    lemma_push_keeps(before, t.id@);
                }
            }
            proof {
                reveal(kids_in);
            }
            j += 1;
        }
        proof {
            reveal(desc_ok);
            lemma_nodup_len(strs(out@), ids_of(tv));
            reveal(closed_upto);
            assert(kids_in(tv, strs(out@)[i as int], strs(out@), include_dead, tv.len() as int));
        }
        i += 1;
    }
    proof {
        reveal(desc_ok);
        reveal(closed_upto);
        reveal(kids_in);
        assert forall|d: Seq<char>| is_descendant(tv, root_id@, d, include_dead) implies strs(out@).contains(d) by {
            let p = choose|p: Seq<Seq<char>>| child_path(tv, p, include_dead) && p[0] == root_id@ && p.last() == d;
            lemma_path_in_closed(tv, p, root_id@, strs(out@), include_dead, p.len() - 1);
        }
    }
    out
}

proof fn lemma_path_in_closed(
    tv: Seq<TaskView>,
    p: Seq<Seq<char>>,
    root: Seq<char>,
    out: Seq<Seq<char>>,
    include_dead: bool,
    k: int,
)
    requires
        child_path(tv, p, include_dead),
        p[0] == root,
        1 <= k < p.len(),
        forall|m: int|
            0 <= m < tv.len() && tv[m].parent == Some(root) && (include_dead || tv[m].status
                != Status::Dead) ==> out.contains(tv[m].id),
        forall|k: int| 0 <= k < out.len() ==> #[trigger] kids_in(tv, out[k], out, include_dead, tv.len() as int),
    ensures
        out.contains(p[k]),
    decreases k,
{
    assert(child_edge(tv, p[k - 1], p[k], include_dead));
    let m = choose|m: int|
        0 <= m < tv.len() && #[trigger] tv[m].parent == Some(p[k - 1]) && tv[m].id == p[k] && (
        include_dead || tv[m].status != Status::Dead);
    if k == 1 {
    } else {
        lemma_path_in_closed(tv, p, root, out, include_dead, k - 1);
        let n = choose|n: int| 0 <= n < out.len() && out[n] == p[k - 1];
        assert(kids_in(tv, out[n], out, include_dead, tv.len() as int));
        reveal(kids_in);
        assert(tv[m].parent == Some(out[n]));
    }
}


/// The index of the last task with id `a` at or below `k` (a lookup keyed by
/// id keeps the last task with that id).
pub open spec fn last_index(tv: Seq<TaskView>, a: Seq<char>, k: int) -> Option<int>
    decreases k + 1,
{
    if k < 0 {
        None
    } else if tv[k].id == a {
        Some(k)
    } else {
        last_index(tv, a, k - 1)
    }
}

/// `a` depends directly on `b` (through the last task with id `a`).
pub open spec fn dep_edge(tv: Seq<TaskView>, a: Seq<char>, b: Seq<char>) -> bool {
    match last_index(tv, a, tv.len() - 1) {
        Some(i) => tv[i].depends_on.contains(b),
        None => false,
    }
}

pub open spec fn dep_path(tv: Seq<TaskView>, p: Seq<Seq<char>>) -> bool {
    p.len() >= 2 && forall|k: int| 0 <= k < p.len() - 1 ==> dep_edge(tv, #[trigger] p[k], p[k + 1])
}

/// `start` depends on `target` through one or more `depends_on` edges.
pub open spec fn reaches(tv: Seq<TaskView>, start: Seq<char>, target: Seq<char>) -> bool {
    exists|p: Seq<Seq<char>>| dep_path(tv, p) && p[0] == start && p.last() == target
}

/// Every dependency id named anywhere, after `start`.
pub open spec fn dep_universe(tv: Seq<TaskView>, start: Seq<char>) -> Seq<Seq<char>> {
    seq![start] + tv.map_values(|t: TaskView| t.depends_on).flatten()
}

proof fn lemma_last_index(tv: Seq<TaskView>, a: Seq<char>, k: int)
    requires
        k < tv.len(),
    ensures
        last_index(tv, a, k) matches Some(i) ==> 0 <= i <= k && tv[i].id == a,
    decreases k + 1,
{
    if k >= 0 && tv[k].id != a {
        lemma_last_index(tv, a, k - 1);
    }
}

proof fn lemma_flatten_contains<A>(s: Seq<Seq<A>>, i: int, j: int)
    requires
        0 <= i < s.len(),
        0 <= j < s[i].len(),
    ensures
        s.flatten().contains(s[i][j]),
    decreases s.len(),
{
    if i == 0 {
        assert(s.flatten() == s[0] + s.drop_first().flatten());
        assert(s.flatten()[j] == s[0][j]);
    } else {
        lemma_flatten_contains(s.drop_first(), i - 1, j);
        let r = s.drop_first().flatten();
        let k = choose|k: int| 0 <= k < r.len() && r[k] == s[i][j];
        assert(s.flatten() == s[0] + r);
        assert(s.flatten()[s[0].len() + k] == s[i][j]);
    }
}

proof fn lemma_edge_in_universe(tv: Seq<TaskView>, start: Seq<char>, a: Seq<char>, b: Seq<char>)
    requires
        dep_edge(tv, a, b),
    ensures
        dep_universe(tv, start).contains(b),
{
    lemma_last_index(tv, a, tv.len() - 1);
    let i = last_index(tv, a, tv.len() - 1)->0;
    let j = choose|j: int| 0 <= j < tv[i].depends_on.len() && tv[i].depends_on[j] == b;
    let m = tv.map_values(|t: TaskView| t.depends_on);
    assert(m[i] == tv[i].depends_on);
    lemma_flatten_contains(m, i, j);
    let r = m.flatten();
    let k = choose|k: int| 0 <= k < r.len() && r[k] == b;
    assert(dep_universe(tv, start)[k + 1] == b);
}

/// The index of the last task whose id is `id`.
fn find_last(tasks: &Vec<Task>, id: &String) -> (r: Option<usize>)
    ensures
        match r {
            Some(i) => last_index(tviews(tasks@), id@, tasks.len() - 1) == Some(i as int),
            None => last_index(tviews(tasks@), id@, tasks.len() - 1) is None,
        },
{
    let ghost tv = tviews(tasks@);
    let mut k = tasks.len();
    while k > 0
        invariant
            k <= tasks.len(),
            tv == tviews(tasks@),
            last_index(tv, id@, tasks.len() - 1) == last_index(tv, id@, k - 1),
        decreases k,
    {
        if tasks[k - 1].id == *id {
            return Some(k - 1);
        }
        k -= 1;
    }
    None
}

/// True if `start` (transitively) depends on `target` through `depends_on`
/// edges. Adding `target` as a dependency of `start` is safe only when
/// `target` does not already reach `start`.
pub fn depends_on_transitively(tasks: &Vec<Task>, start: &String, target: &String) -> (b: bool)
    ensures
        b == reaches(tviews(tasks@), start@, target@),
{
    let ghost tv = tviews(tasks@);
    let ghost u = dep_universe(tv, start@);
    let mut reached: Vec<String> = Vec::new();
    reached.push(start.clone());
    proof {
        assert(strs(reached@) =~= seq![start@]);
        assert(u[0] == start@);
        let p0 = seq![start@];
        assert(p0[0] == start@ && p0.last() == start@);
    }
    let mut i: usize = 0;
    while i < reached.len()
        invariant
            tv == tviews(tasks@),
            u == dep_universe(tv, start@),
            i <= reached.len(),
            reached.len() <= u.len(),
            strs(reached@).no_duplicates(),
            strs(reached@)[0] == start@,
            reached.len() >= 1,
            forall|x: Seq<char>| strs(reached@).contains(x) ==> u.contains(x),
            forall|x: Seq<char>| strs(reached@).contains(x) ==> (x == start@ || reaches(tv, start@, x)),
            forall|k: int, y: Seq<char>|
                0 <= k < i && #[trigger] dep_edge(tv, strs(reached@)[k], y) ==> strs(reached@).contains(y)
                    && y != target@,
        decreases u.len() - i,
    {
        let cur = reached[i].clone();
        let ghost curv = cur@;
        proof {
            assert(strs(reached@)[i as int] == cur@);
        }
        let found = find_last(tasks, &cur);
        proof {
            lemma_last_index(tv, cur@, tasks.len() - 1);
        }
        match found {
            None => {
                proof {
                    assert forall|k: int, y: Seq<char>|
                        0 <= k < i + 1 && #[trigger] dep_edge(tv, strs(reached@)[k], y) implies strs(reached@).contains(y)
                            && y != target@ by {
                        if k == i {
                            assert(strs(reached@)[k] == cur@);
                        }
                    }
                }
            },
            Some(ti) => {
                let deps = &tasks[ti].depends_on;
                let mut j: usize = 0;
                while j < deps.len()
                    invariant
                        tv == tviews(tasks@),
                        u == dep_universe(tv, start@),
                        i < reached.len(),
                        ti < tasks.len(),
                        deps@ == tasks@[ti as int].depends_on@,
                        last_index(tv, cur@, tasks.len() - 1) == Some(ti as int),
                        cur@ == strs(reached@)[i as int],
                        j <= deps.len(),
                        reached.len() <= u.len(),
                        strs(reached@).no_duplicates(),
                        strs(reached@)[0] == start@,
                        forall|x: Seq<char>| strs(reached@).contains(x) ==> u.contains(x),
                        forall|x: Seq<char>| strs(reached@).contains(x) ==> (x == start@ || reaches(tv, start@, x)),
                        forall|k: int, y: Seq<char>|
                            0 <= k < i && #[trigger] dep_edge(tv, strs(reached@)[k], y) ==> strs(reached@).contains(y)
                                && y != target@,
                        forall|m: int| 0 <= m < j ==> strs(reached@).contains(#[trigger] strs(deps@)[m]) && strs(deps@)[m] != target@,
                    decreases deps.len() - j,
                {
                    let d = &deps[j];
                    proof {
                        assert(strs(deps@)[j as int] == d@);
                        assert(tv[ti as int].depends_on == strs(deps@));
                        assert(dep_edge(tv, cur@, d@));
                    }
                    if *d == *target {
                        proof {
                            // a path to `cur`, extended by the edge to `target`
                            if cur@ == start@ {
                                let p = seq![start@, target@];
                                assert(dep_path(tv, p));
                                assert(p[0] == start@ && p.last() == target@);
                            } else {
                                assert(strs(reached@).contains(cur@));
                                let q = choose|q: Seq<Seq<char>>| dep_path(tv, q) && q[0] == start@ && q.last() == cur@;
                                let p = q.push(target@);
                                assert(dep_path(tv, p)) by {
                                    assert forall|k: int| 0 <= k < p.len() - 1 implies dep_edge(tv, #[trigger] p[k], p[k + 1]) by {
                                        if k < q.len() - 1 {
                                            assert(p[k] == q[k] && p[k + 1] == q[k + 1]);
                                        }
                                    }
                                }
                                assert(p[0] == start@ && p.last() == target@);
                            }
                        }
                        return true;
                    }
                    if !has_string(&reached, d) {
                        let ghost before = strs(reached@);
                        reached.push(d.clone());
                        proof {
                            assert(strs(reached@) =~= before.push(d@));
                            lemma_push_keeps(before, d@);
                            lemma_edge_in_universe(tv, start@, cur@, d@);
                            // the new id is reachable
                            if cur@ == start@ {
                                let p = seq![start@, d@];
                                assert(dep_path(tv, p));
                                assert(p[0] == start@ && p.last() == d@);
                            } else {
                                assert(before.contains(cur@));
                                let q = choose|q: Seq<Seq<char>>| dep_path(tv, q) && q[0] == start@ && q.last() == cur@;
                                let p = q.push(d@);
                                assert(dep_path(tv, p)) by {
                                    assert forall|k: int| 0 <= k < p.len() - 1 implies dep_edge(tv, #[trigger] p[k], p[k + 1]) by {
                                        if k < q.len() - 1 {
                                            assert(p[k] == q[k] && p[k + 1] == q[k + 1]);
                                        }
                                    }
                                }
                                assert(p[0] == start@ && p.last() == d@);
                            }
                            assert forall|x: Seq<char>| strs(reached@).contains(x) implies u.contains(x) by {
                                if x != d@ {
                                    assert(before.contains(x));
                                }
                            }
                            assert forall|x: Seq<char>| strs(reached@).contains(x) implies (x == start@ || reaches(tv, start@, x)) by {
                                if x != d@ {
                                    assert(before.contains(x));
                                }
                            }
                            assert forall|k: int, y: Seq<char>|
                                0 <= k < i && #[trigger] dep_edge(tv, strs(reached@)[k], y) implies strs(reached@).contains(y)
                                    && y != target@ by {
                                assert(strs(reached@)[k] == before[k]);
                            }
                            assert forall|m: int| 0 <= m < j + 1 implies strs(reached@).contains(#[trigger] strs(deps@)[m]) && strs(deps@)[m] != target@ by {
                            }
                            lemma_nodup_len(strs(reached@), u);
                        }
                    } else {
                        proof {
                            assert forall|m: int| 0 <= m < j + 1 implies strs(reached@).contains(#[trigger] strs(deps@)[m]) && strs(deps@)[m] != target@ by {
                            }
                        }
                    }
                    j += 1;
                }
                proof {
                    assert forall|k: int, y: Seq<char>|
                        0 <= k < i + 1 && #[trigger] dep_edge(tv, strs(reached@)[k], y) implies strs(reached@).contains(y)
                            && y != target@ by {
                        if k == i {
                            assert(strs(reached@)[k] == cur@);
                            assert(tv[ti as int].depends_on == strs(deps@));
                            let m = choose|m: int| 0 <= m < strs(deps@).len() && strs(deps@)[m] == y;
                        }
                    }
                }
            },
        }
        i += 1;
    }
    proof {
        let r = strs(reached@);
        if reaches(tv, start@, target@) {
            let p = choose|p: Seq<Seq<char>>| dep_path(tv, p) && p[0] == start@ && p.last() == target@;
            lemma_dep_path_closed(tv, p, r, target@, (p.len() - 2) as int);
            let n = choose|n: int| 0 <= n < r.len() && r[n] == p[p.len() - 2];
            assert(dep_edge(tv, r[n], target@));
        }
    }
    false
}

proof fn lemma_dep_path_closed(tv: Seq<TaskView>, p: Seq<Seq<char>>, r: Seq<Seq<char>>, target: Seq<char>, k: int)
    requires
        dep_path(tv, p),
        r.len() >= 1,
        r[0] == p[0],
        0 <= k <= p.len() - 2,
        forall|n: int, y: Seq<char>|
            0 <= n < r.len() && #[trigger] dep_edge(tv, r[n], y) ==> r.contains(y) && y != target,
    ensures
        r.contains(p[k]),
    decreases k,
{
    if k == 0 {
        assert(r[0] == p[0]);
    } else {
        lemma_dep_path_closed(tv, p, r, target, k - 1);
        let n = choose|n: int| 0 <= n < r.len() && r[n] == p[k - 1];
        assert(dep_edge(tv, p[k - 1], p[k]));
        assert(dep_edge(tv, r[n], p[k]));
    }
}

/// Whether `t` is in the scope `apply` keeps, content predicates aside.
pub open spec fn status_ok(statuses: Seq<Status>, s: Status, include_dead: bool) -> bool {
    if statuses.len() > 0 {
        statuses.contains(s)
    } else {
        include_dead || s != Status::Dead
    }
}

/// The `apply` predicate field by field, for callers that override a field
/// of a spec before applying it.
pub open spec fn keeps_parts(
    statuses: Seq<Status>,
    parent: Option<Seq<char>>,
    types: Seq<Seq<char>>,
    priorities: Seq<u8>,
    labels: Seq<Seq<char>>,
    search: Option<Seq<char>>,
    ready_only: bool,
    tangled_only: bool,
    tv: Seq<TaskView>,
    t: TaskView,
    include_dead: bool,
) -> bool {
    &&& status_ok(statuses, t.status, include_dead)
    &&& match parent {
        Some(p) => is_descendant(tv, p, t.id, statuses.contains(Status::Dead)),
        None => true,
    }
    &&& matches_spec(types, priorities, labels, search, ready_only, tangled_only, t, resolved_spec(tv))
}

impl FilterSpec {
    /// A task `apply` keeps out of the loaded set `tv`.
    pub open spec fn keeps(&self, tv: Seq<TaskView>, t: TaskView, include_dead: bool) -> bool {
        keeps_parts(
            self.statuses@,
            ostr(self.parent),
            strs(self.types@),
            self.priorities@,
            strs(self.labels@),
            ostr(self.search),
            self.ready_only,
            self.tangled_only,
            tv,
            t,
            include_dead,
        )
    }
}

/// No yak is both ready and tangled: a spec that asks for ready yaks and
/// one that asks for tangled yaks never keep the same task.
pub proof fn ready_and_tangled_are_disjoint(
    ready: FilterSpec,
    tangled: FilterSpec,
    tv: Seq<TaskView>,
    t: TaskView,
    include_dead: bool,
)
    requires
        ready.ready_only,
        tangled.tangled_only,
    ensures
        !(ready.keeps(tv, t, include_dead) && tangled.keeps(tv, t, include_dead)),
{
}

/// A search matches text anywhere in a yak's title, body or id, case
/// folded: with only a search set, a live yak is kept exactly when the
/// lowercased query occurs in its lowercased `title body id`.
pub proof fn search_looks_in_title_body_and_id(spec: FilterSpec, tv: Seq<TaskView>, t: TaskView, q: Seq<char>)
    requires
        spec.statuses@.len() == 0,
        spec.parent is None,
        spec.types@.len() == 0,
        spec.priorities@.len() == 0,
        spec.labels@.len() == 0,
        !spec.ready_only,
        !spec.tangled_only,
        ostr(spec.search) == Some(q),
    ensures
        spec.keeps(tv, t, false) == (t.status != Status::Dead && contains_seq(
            lowercase(t.title + seq![' '] + t.body + seq![' '] + t.id),
            lowercase(q),
        )),
{
}

/// A yak blocked on someone (`needs` set) is never ready, whatever its
/// dependencies.
pub proof fn needs_block_is_never_ready(spec: FilterSpec, tv: Seq<TaskView>, t: TaskView, include_dead: bool)
    requires
        spec.ready_only,
        t.needs is Some,
    ensures
        !spec.keeps(tv, t, include_dead),
{
}

fn has_status(v: &Vec<Status>, s: Status) -> (b: bool)
    ensures
        b == v@.contains(s),
{
    let mut i: usize = 0;
    while i < v.len()
        invariant
            i <= v.len(),
            forall|j: int| 0 <= j < i ==> v@[j] != s,
        decreases v.len() - i,
    {
        if v[i] == s {
            return true;
        }
        i += 1;
    }
    false
}

/// Apply `spec` over a fully-loaded task set, keeping the input order.
/// `include_dead` only affects the default scope when `spec.statuses` is
/// empty.
pub fn apply<'a>(tasks: &'a Vec<Task>, spec: &FilterSpec, include_dead: bool) -> (r: Vec<&'a Task>)
    ensures
        r@.map_values(|t: &Task| t@) == tviews(tasks@).filter(
            |t: TaskView| spec.keeps(tviews(tasks@), t, include_dead),
        ),
{
    let ghost tv = tviews(tasks@);
    let ghost pred = |t: TaskView| spec.keeps(tv, t, include_dead);
    let resolved = resolved_ids(tasks);
    let with_dead = has_status(&spec.statuses, Status::Dead);
    let scope: Option<Vec<String>> = match &spec.parent {
        Some(p) => Some(descendant_ids(tasks, p, with_dead)),
        None => None,
    };
    let mut out: Vec<&Task> = Vec::new();
    let mut i: usize = 0;
    assert(tv.take(0).filter(pred) =~= Seq::<TaskView>::empty());
    while i < tasks.len()
        invariant
            i <= tasks.len(),
            tv == tviews(tasks@),
            pred == (|t: TaskView| spec.keeps(tv, t, include_dead)),
            strs(resolved@) == resolved_spec(tv),
            with_dead == spec.statuses@.contains(Status::Dead),
            match spec.parent {
                Some(p) => scope matches Some(sc) && forall|d: Seq<char>| strs(sc@).contains(d) <==> is_descendant(tv, p@, d, with_dead),
                None => scope is None,
            },
            out@.map_values(|t: &Task| t@) == tv.take(i as int).filter(pred),
        decreases tasks.len() - i,
    {
        let t = &tasks[i];
        let mut keep = if spec.statuses.len() > 0 {
            has_status(&spec.statuses, t.status)
        } else {
            include_dead || t.status != Status::Dead
        };
        if keep {
            match &scope {
                Some(sc) => {
                    keep = has_string(sc, &t.id);
                },
                None => {},
            }
        }
        if keep {
            keep = spec.matches(t, &resolved);
        }
        proof {
            assert(tv[i as int] == t@);
            assert(keep == pred(t@));
            assert(tv.take(i + 1) == tv.take(i as int).push(t@));
            tv.take(i as int).lemma_filter_push(t@, pred);
        }
        if keep {
            let ghost before = out@;
            out.push(t);
            assert(out@.map_values(|t: &Task| t@) =~= before.map_values(|t: &Task| t@).push(t@));
        }
        i += 1;
    }
    assert(tv.take(tasks.len() as int) == tv);
    out
}

} // verus!
