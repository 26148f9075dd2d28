//! The read-only integrity pass: duplicated ids, dangling references, and
//! (in strict mode) shorn yaks without evidence.

use vstd::prelude::*;
use crate::text::{
    chars_of, string_of, same, push_str, push_all, lt, seq_lt, lemma_lt_trans, lemma_lt_irrefl,
    join, join_seq, has_prefix, contains, starts_with, contains_seq,
};
use crate::model::{Status, Task, TaskView, tviews, strs, status_dir};
use crate::store::layout::{file_views, taken};
use crate::store::notes::{parse_notes, parse_notes_spec, note_view, NoteEntry};
use crate::store::write::{dec, dec_spec};
use crate::farm::Farm;
use crate::farm::query::index_from;

verus! {

/// The classes of problem `doctor` looks for.
#[derive(Debug, Clone, Copy, PartialEq, Eq, Structural)]
pub enum IssueKind {
    /// One id in more than one status directory at once.
    DuplicateStatus,
    /// The same id parsed from two files in one status directory.
    DuplicateId,
    /// A `parent` naming no task.
    DanglingParent,
    /// A `depends_on` entry naming no task.
    DanglingDependsOn,
    /// A shorn yak with no recorded note (strict mode).
    MissingEvidence,
    /// A shorn yak whose `verify:` command did not last pass (strict mode).
    UnverifiedShear,
}

pub open spec fn kind_code(k: IssueKind) -> Seq<char> {
    match k {
        IssueKind::DuplicateStatus => "duplicate-status"@,
        IssueKind::DuplicateId => "duplicate-id"@,
        IssueKind::DanglingParent => "dangling-parent"@,
        IssueKind::DanglingDependsOn => "dangling-depends-on"@,
        IssueKind::MissingEvidence => "missing-evidence"@,
        IssueKind::UnverifiedShear => "unverified-shear"@,
    }
}

pub open spec fn kind_heading(k: IssueKind) -> Seq<char> {
    match k {
        IssueKind::DuplicateStatus => "Duplicate status (same id in multiple status dirs)"@,
        IssueKind::DuplicateId => "Duplicate id (same id twice in one status dir)"@,
        IssueKind::DanglingParent => "Dangling parent"@,
        IssueKind::DanglingDependsOn => "Dangling depends_on"@,
        IssueKind::MissingEvidence => "Missing evidence (shorn yak with no recorded note)"@,
        IssueKind::UnverifiedShear => "Unverified shear (shorn yak whose verify: command did not last PASS)"@,
    }
}

impl IssueKind {
    /// A short, stable machine label.
    pub fn code(self) -> (r: &'static str)
        ensures
            r@ == kind_code(self),
    {
        match self {
            IssueKind::DuplicateStatus => "duplicate-status",
            IssueKind::DuplicateId => "duplicate-id",
            IssueKind::DanglingParent => "dangling-parent",
            IssueKind::DanglingDependsOn => "dangling-depends-on",
            IssueKind::MissingEvidence => "missing-evidence",
            IssueKind::UnverifiedShear => "unverified-shear",
        }
    }

    /// A human heading for grouped output.
    pub fn heading(self) -> (r: &'static str)
        ensures
            r@ == kind_heading(self),
    {
        match self {
            IssueKind::DuplicateStatus => "Duplicate status (same id in multiple status dirs)",
            IssueKind::DuplicateId => "Duplicate id (same id twice in one status dir)",
            IssueKind::DanglingParent => "Dangling parent",
            IssueKind::DanglingDependsOn => "Dangling depends_on",
            IssueKind::MissingEvidence => "Missing evidence (shorn yak with no recorded note)",
            IssueKind::UnverifiedShear => {
                "Unverified shear (shorn yak whose verify: command did not last PASS)"
            },
        }
    }
}

/// One integrity problem: its kind, a message, and the ids it concerns
/// (the subject first, then any id it points at).
pub struct Issue {
    pub kind: IssueKind,
    pub message: String,
    pub ids: Vec<String>,
}

pub open spec fn issue_view(i: Issue) -> (IssueKind, Seq<char>, Seq<Seq<char>>) {
    (i.kind, i.message@, strs(i.ids@))
}

pub open spec fn issue_views(v: Seq<Issue>) -> Seq<(IssueKind, Seq<char>, Seq<Seq<char>>)> {
    v.map_values(|i: Issue| issue_view(i))
}

pub open spec fn kind_rank(k: IssueKind) -> int {
    match k {
        IssueKind::DuplicateStatus => 0,
        IssueKind::DuplicateId => 1,
        IssueKind::DanglingParent => 2,
        IssueKind::DanglingDependsOn => 3,
        IssueKind::MissingEvidence => 4,
        IssueKind::UnverifiedShear => 5,
    }
}

pub open spec fn nth_id(ids: Seq<Seq<char>>, n: int) -> Option<Seq<char>> {
    if 0 <= n < ids.len() {
        Some(ids[n])
    } else {
        None
    }
}

/// `None` before any id, ids by character order.
pub open spec fn opt_lt(a: Option<Seq<char>>, b: Option<Seq<char>>) -> bool {
    match (a, b) {
        (None, Some(_)) => true,
        (Some(x), Some(y)) => seq_lt(x, y),
        _ => false,
    }
}

/// The report order: by kind, then first id, then second id.
pub open spec fn issue_before(a: (IssueKind, Seq<char>, Seq<Seq<char>>), b: (IssueKind, Seq<char>, Seq<Seq<char>>)) -> bool {
    if kind_rank(a.0) != kind_rank(b.0) {
        kind_rank(a.0) < kind_rank(b.0)
    } else if nth_id(a.2, 0) != nth_id(b.2, 0) {
        opt_lt(nth_id(a.2, 0), nth_id(b.2, 0))
    } else {
        opt_lt(nth_id(a.2, 1), nth_id(b.2, 1))
    }
}

pub open spec fn issues_sorted(s: Seq<(IssueKind, Seq<char>, Seq<Seq<char>>)>) -> bool {
    forall|i: int, j: int| 0 <= i < j < s.len() ==> !issue_before(#[trigger] s[j], #[trigger] s[i])
}

// ---------------------------------------------------------------------------
// what the pass finds
// ---------------------------------------------------------------------------

/// The statuses the files of `id` were loaded under, in load order.
pub open spec fn statuses_with(tv: Seq<TaskView>, id: Seq<char>) -> Seq<Status> {
    tv.filter(|t: TaskView| t.id == id).map_values(|t: TaskView| t.status)
}

/// The distinct statuses among `sts`, in lifecycle order.
pub open spec fn distinct_statuses(sts: Seq<Status>) -> Seq<Status> {
    seq![Status::Hairy, Status::Shaving, Status::Shorn, Status::Dead].filter(|s: Status| sts.contains(s))
}

pub open spec fn dirs_text(ds: Seq<Status>) -> Seq<char> {
    join_seq(ds.map_values(|s: Status| status_dir(s)), ", "@)
}

/// The duplicate issue for `id`, if its files disagree or repeat.
pub open spec fn dup_issue(tv: Seq<TaskView>, id: Seq<char>) -> Seq<(IssueKind, Seq<char>, Seq<Seq<char>>)> {
    let sts = statuses_with(tv, id);
    let ds = distinct_statuses(sts);
    if ds.len() > 1 {
        seq![(IssueKind::DuplicateStatus, id + " is in "@ + dec_spec(ds.len()) + " status dirs at once: "@ + dirs_text(ds), seq![id])]
    } else if sts.len() > 1 {
        seq![(IssueKind::DuplicateId, id + " appears "@ + dec_spec(sts.len()) + " times in "@ + status_dir(ds[0]) + "/"@, seq![id])]
    } else {
        seq![]
    }
}

/// Duplicate issues for the ids among the first `n` tasks, each id once.
pub open spec fn dup_issues(tv: Seq<TaskView>, n: int) -> Seq<(IssueKind, Seq<char>, Seq<Seq<char>>)>
    decreases n,
{
    if n <= 0 || n > tv.len() {
        seq![]
    } else {
        dup_issues(tv, n - 1) + if index_from(tv, tv[n - 1].id, 0) == Some(n - 1) {
            dup_issue(tv, tv[n - 1].id)
        } else {
            seq![]
        }
    }
}

/// Dangling dependencies among the first `n` of `t`'s.
pub open spec fn dangling_deps(t: TaskView, files: Seq<(Seq<char>, Status)>, n: int) -> Seq<(IssueKind, Seq<char>, Seq<Seq<char>>)>
    decreases n,
{
    if n <= 0 || n > t.depends_on.len() {
        seq![]
    } else {
        let d = t.depends_on[n - 1];
        dangling_deps(t, files, n - 1) + if !taken(files, d) {
            seq![(IssueKind::DanglingDependsOn, t.id + " depends_on "@ + d + " but no such yak exists"@, seq![t.id, d])]
        } else {
            seq![]
        }
    }
}

/// `t`'s dangling parent and dependencies.
pub open spec fn dangling_of(t: TaskView, files: Seq<(Seq<char>, Status)>) -> Seq<(IssueKind, Seq<char>, Seq<Seq<char>>)> {
    let p = match t.parent {
        Some(p) => if !taken(files, p) {
            seq![(IssueKind::DanglingParent, t.id + " has parent "@ + p + " but no such yak exists"@, seq![t.id, p])]
        } else {
            seq![]
        },
        None => seq![],
    };
    p + dangling_deps(t, files, t.depends_on.len() as int)
}

pub open spec fn dangling_issues(tv: Seq<TaskView>, files: Seq<(Seq<char>, Status)>, n: int) -> Seq<(IssueKind, Seq<char>, Seq<Seq<char>>)>
    decreases n,
{
    if n <= 0 || n > tv.len() {
        seq![]
    } else {
        dangling_issues(tv, files, n - 1) + dangling_of(tv[n - 1], files)
    }
}

/// A note `yaks verify` writes: `verify: <cmd> -> PASS…` or `-> FAIL…`.
pub open spec fn is_verify_note(text: Seq<char>) -> bool {
    starts_with(text, "verify: "@) && contains_seq(text, " -> "@)
}

/// The text of the most recent verify note.
pub open spec fn last_verify(notes: Seq<(Seq<char>, Option<Seq<char>>, Seq<char>)>) -> Option<Seq<char>>
    decreases notes.len(),
{
    if notes.len() == 0 {
        None
    } else if is_verify_note(notes.last().2) {
        Some(notes.last().2)
    } else {
        last_verify(notes.drop_last())
    }
}

/// The most recent verify run recorded in `body` passed.
pub open spec fn last_verify_passed(body: Seq<char>) -> bool {
    match last_verify(parse_notes_spec(body)) {
        Some(t) => contains_seq(t, " -> PASS"@),
        None => false,
    }
}

/// The strict-mode issues of `t`.
pub open spec fn evidence_of(t: TaskView) -> Seq<(IssueKind, Seq<char>, Seq<Seq<char>>)> {
    let missing = if t.status == Status::Shorn && parse_notes_spec(t.body).len() == 0 {
        seq![(IssueKind::MissingEvidence, t.id + " is "@ + status_dir(t.status) + " but has no recorded note (evidence before shear)"@, seq![t.id])]
    } else {
        seq![]
    };
    let unverified = if t.status == Status::Shorn && t.verify is Some && !last_verify_passed(t.body) {
        seq![(IssueKind::UnverifiedShear, t.id + " is shorn with a verify: command but its last verify run was not a PASS (run `yaks verify "@ + t.id + "`)"@, seq![t.id])]
    } else {
        seq![]
    };
    missing + unverified
}

pub open spec fn evidence_issues(tv: Seq<TaskView>, n: int) -> Seq<(IssueKind, Seq<char>, Seq<Seq<char>>)>
    decreases n,
{
    if n <= 0 || n > tv.len() {
        seq![]
    } else {
        evidence_issues(tv, n - 1) + evidence_of(tv[n - 1])
    }
}

/// Everything the pass finds, before ordering.
pub open spec fn found_issues(tv: Seq<TaskView>, files: Seq<(Seq<char>, Status)>, strict: bool) -> Seq<(IssueKind, Seq<char>, Seq<Seq<char>>)> {
    dup_issues(tv, tv.len() as int) + dangling_issues(tv, files, tv.len() as int) + if strict {
        evidence_issues(tv, tv.len() as int)
    } else {
        seq![]
    }
}

// ---------------------------------------------------------------------------
// ordering
// ---------------------------------------------------------------------------

proof fn lemma_opt_lt_trans(a: Option<Seq<char>>, b: Option<Seq<char>>, c: Option<Seq<char>>)
    requires
        opt_lt(a, b),
        opt_lt(b, c),
    ensures
        opt_lt(a, c),
{
    if a is Some {
        lemma_lt_trans(a->0, b->0, c->0);
    }
}

proof fn lemma_opt_lt_irrefl(a: Option<Seq<char>>)
    ensures
        !opt_lt(a, a),
{
    if a is Some {
        lemma_lt_irrefl(a->0);
    }
}

proof fn lemma_issue_before_trans(
    a: (IssueKind, Seq<char>, Seq<Seq<char>>),
    b: (IssueKind, Seq<char>, Seq<Seq<char>>),
    c: (IssueKind, Seq<char>, Seq<Seq<char>>),
)
    requires
        issue_before(a, b),
        issue_before(b, c),
    ensures
        issue_before(a, c),
{
    let (a1, b1, c1) = (nth_id(a.2, 0), nth_id(b.2, 0), nth_id(c.2, 0));
    let (a2, b2, c2) = (nth_id(a.2, 1), nth_id(b.2, 1), nth_id(c.2, 1));
    if kind_rank(a.0) == kind_rank(b.0) && kind_rank(b.0) == kind_rank(c.0) {
        if a1 != b1 && b1 != c1 {
            lemma_opt_lt_trans(a1, b1, c1);
            lemma_opt_lt_irrefl(a1);
        } else if a1 == b1 && b1 == c1 {
            lemma_opt_lt_trans(a2, b2, c2);
        }
    }
}

proof fn lemma_issue_before_irrefl(a: (IssueKind, Seq<char>, Seq<Seq<char>>))
    ensures
        !issue_before(a, a),
{
    lemma_opt_lt_irrefl(nth_id(a.2, 1));
}

fn opt_lt_exec(a: Option<&String>, b: Option<&String>) -> (r: bool)
    ensures
        r == opt_lt(
            match a {
                Some(x) => Some(x@),
                None => None,
            },
            match b {
                Some(x) => Some(x@),
                None => None,
            },
        ),
{
    match (a, b) {
        (None, Some(_)) => true,
        (Some(x), Some(y)) => lt(&chars_of(x.as_str()), &chars_of(y.as_str())),
        _ => false,
    }
}

fn nth(ids: &Vec<String>, n: usize) -> (r: Option<&String>)
    ensures
        match r {
            Some(x) => Some(x@),
            None => None,
        } == nth_id(strs(ids@), n as int),
{
    if n < ids.len() {
        Some(&ids[n])
    } else {
        None
    }
}

fn opt_same(a: Option<&String>, b: Option<&String>) -> (r: bool)
    ensures
        r == (match a {
            Some(x) => Some(x@),
            None => None,
        } == match b {
            Some(x) => Some(x@),
            None => None,
        }),
{
    match (a, b) {
        (Some(x), Some(y)) => same(x.as_str(), y.as_str()),
        (None, None) => true,
        _ => false,
    }
}

fn before_exec(a: &Issue, b: &Issue) -> (r: bool)
    ensures
        r == issue_before(issue_view(*a), issue_view(*b)),
{
    let ra = rank_exec(a.kind);
    let rb = rank_exec(b.kind);
    if ra != rb {
        ra < rb
    } else if !opt_same(nth(&a.ids, 0), nth(&b.ids, 0)) {
        opt_lt_exec(nth(&a.ids, 0), nth(&b.ids, 0))
    } else {
        opt_lt_exec(nth(&a.ids, 1), nth(&b.ids, 1))
    }
}

fn rank_exec(k: IssueKind) -> (r: u8)
    ensures
        r == kind_rank(k),
{
    match k {
        IssueKind::DuplicateStatus => 0,
        IssueKind::DuplicateId => 1,
        IssueKind::DanglingParent => 2,
        IssueKind::DanglingDependsOn => 3,
        IssueKind::MissingEvidence => 4,
        IssueKind::UnverifiedShear => 5,
    }
}

fn same_ids(a: &Vec<String>, b: &Vec<String>) -> (r: bool)
    ensures
        r == (strs(a@) == strs(b@)),
{
    if a.len() != b.len() {
        assert(strs(a@).len() != strs(b@).len());
        return false;
    }
    let mut i: usize = 0;
    while i < a.len()
        invariant
            i <= a.len(),
            a.len() == b.len(),
            forall|j: int| 0 <= j < i ==> strs(a@)[j] == strs(b@)[j],
        decreases a.len() - i,
    {
        if !same(a[i].as_str(), b[i].as_str()) {
            assert(strs(a@)[i as int] != strs(b@)[i as int]);
            return false;
        }
        i += 1;
    }
    assert(strs(a@) =~= strs(b@));
    true
}

fn same_issue(a: &Issue, b: &Issue) -> (r: bool)
    ensures
        r == (issue_view(*a) == issue_view(*b)),
{
    a.kind == b.kind && same(a.message.as_str(), b.message.as_str()) && same_ids(&a.ids, &b.ids)
}

/// Put `x` at its place in report order, unless an equal issue is there.
fn insert_issue(out: &mut Vec<Issue>, x: Issue)
    requires
        issues_sorted(issue_views(old(out)@)),
        issue_views(old(out)@).no_duplicates(),
    ensures
        issues_sorted(issue_views(final(out)@)),
        issue_views(final(out)@).no_duplicates(),
        forall|y: (IssueKind, Seq<char>, Seq<Seq<char>>)|
            issue_views(final(out)@).contains(y) <==> (issue_views(old(out)@).contains(y) || y
                == issue_view(x)),
{
    let ghost prev = issue_views(out@);
    let mut i: usize = 0;
    while i < out.len()
        invariant
            i <= out.len(),
            prev == issue_views(out@),
            issues_sorted(prev),
            prev.no_duplicates(),
            forall|j: int| 0 <= j < i ==> prev[j] != issue_view(x),
        decreases out.len() - i,
    {
        if same_issue(&out[i], &x) {
            assert(prev[i as int] == issue_view(x));
            return;
        }
        i += 1;
    }
    let mut k: usize = 0;
    while k < out.len() && !before_exec(&x, &out[k])
        invariant
            k <= out.len(),
            prev == issue_views(out@),
            forall|m: int| 0 <= m < k ==> !issue_before(issue_view(x), prev[m]),
        decreases out.len() - k,
    {
        k += 1;
    }
    let ghost xv = issue_view(x);
    out.insert(k, x);
    proof {
        let after = issue_views(out@);
        assert(after =~= prev.insert(k as int, xv));
        assert forall|a: int, b: int| 0 <= a < b < after.len() implies !issue_before(
            #[trigger] after[b],
            #[trigger] after[a],
        ) by {
            if a < k && b == k {
            } else if a == k && b > k {
                assert(after[b] == prev[b - 1]);
                if k < prev.len() {
                    assert(issue_before(xv, prev[k as int]));
                    if b - 1 > k {
                        assert(!issue_before(prev[b - 1], prev[k as int]));
                    }
                    if issue_before(prev[b - 1], xv) {
                        lemma_issue_before_trans(prev[b - 1], xv, prev[k as int]);
                        lemma_issue_before_irrefl(prev[k as int]);
                    }
                }
            } else {
                let a2 = if a < k { a } else { a - 1 };
                let b2 = if b < k { b } else { b - 1 };
                assert(after[a] == prev[a2]);
                assert(after[b] == prev[b2]);
            }
        }
        assert forall|a: int, b: int| 0 <= a < after.len() && 0 <= b < after.len() && a != b implies after[a] != after[b] by {
            let a2 = if a < k { a } else { a - 1 };
            let b2 = if b < k { b } else { b - 1 };
            if a != k && b != k {
                assert(after[a] == prev[a2]);
                assert(after[b] == prev[b2]);
            } else if a == k {
                assert(after[b] == prev[b2]);
            } else {
                assert(after[a] == prev[a2]);
            }
        }
        assert forall|y: (IssueKind, Seq<char>, Seq<Seq<char>>)| after.contains(y) <==> (prev.contains(y) || y == xv) by {
            if after.contains(y) {
                let j = choose|j: int| 0 <= j < after.len() && after[j] == y;
                if j < k {
                    assert(prev[j] == y);
                } else if j > k {
                    assert(prev[j - 1] == y);
                }
            }
            if prev.contains(y) {
                let j = choose|j: int| 0 <= j < prev.len() && prev[j] == y;
                if j < k {
                    assert(after[j] == y);
                } else {
                    assert(after[j + 1] == y);
                }
            }
            if y == xv {
                assert(after[k as int] == y);
            }
        }
    }
}

// ---------------------------------------------------------------------------
// building the issues
// ---------------------------------------------------------------------------

fn one_id(a: &String) -> (r: Vec<String>)
    ensures
        strs(r@) == seq![a@],
{
    let mut v: Vec<String> = Vec::new();
    v.push(a.clone());
    assert(strs(v@) =~= seq![a@]);
    v
}

fn two_ids(a: &String, b: &String) -> (r: Vec<String>)
    ensures
        strs(r@) == seq![a@, b@],
{
    let mut v: Vec<String> = Vec::new();
    v.push(a.clone());
    v.push(b.clone());
    assert(strs(v@) =~= seq![a@, b@]);
    v
}

fn statuses_of(tasks: &Vec<Task>, id: &String) -> (r: Vec<Status>)
    ensures
        r@ == statuses_with(tviews(tasks@), id@),
{
    let ghost tv = tviews(tasks@);
    let ghost p = |t: TaskView| t.id == id@;
    let ghost f = |t: TaskView| t.status;
    let mut r: Vec<Status> = Vec::new();
    let mut i: usize = 0;
    assert(tv.take(0).filter(p).map_values(f) =~= Seq::<Status>::empty());
    while i < tasks.len()
        invariant
            i <= tasks.len(),
            tv == tviews(tasks@),
            p == (|t: TaskView| t.id == id@),
            f == (|t: TaskView| t.status),
            r@ == tv.take(i as int).filter(p).map_values(f),
        decreases tasks.len() - i,
    {
        proof {
            assert(tv.take(i + 1) == tv.take(i as int).push(tv[i as int]));
            tv.take(i as int).lemma_filter_push(tv[i as int], p);
        }
        if same(tasks[i].id.as_str(), id.as_str()) {
            let ghost before = r@;
            r.push(tasks[i].status);
            assert(tv.take(i as int).filter(p).push(tv[i as int]).map_values(f) =~= before.push(tasks@[i as int].status));
        }
        i += 1;
    }
    assert(tv.take(tasks.len() as int) == tv);
    r
}

fn has_status(v: &Vec<Status>, s: Status) -> (b: bool)
    ensures
        b == v@.contains(s),
{
    let mut i: usize = 0;
    while i < v.len()
        invariant
            i <= v.len(),
            forall|j: int| 0 <= j < i ==> v@[j] != s,
        decreases v.len() - i,
    {
        if v[i] == s {
            return true;
        }
        i += 1;
    }
    false
}

fn distinct_of(sts: &Vec<Status>) -> (r: Vec<Status>)
    ensures
        r@ == distinct_statuses(sts@),
        sts@.len() > 0 ==> r@.len() > 0,
{
    assert(sts@.len() > 0 ==> sts@.contains(sts@[0]));
    let ghost all = seq![Status::Hairy, Status::Shaving, Status::Shorn, Status::Dead];
    let ghost p = |s: Status| sts@.contains(s);
    let mut r: Vec<Status> = Vec::new();
    proof {
        assert(all.take(0).filter(p) =~= Seq::<Status>::empty());
        assert(all.take(1) == all.take(0).push(Status::Hairy));
        all.take(0).lemma_filter_push(Status::Hairy, p);
        assert(all.take(2) == all.take(1).push(Status::Shaving));
        all.take(1).lemma_filter_push(Status::Shaving, p);
        assert(all.take(3) == all.take(2).push(Status::Shorn));
        all.take(2).lemma_filter_push(Status::Shorn, p);
        assert(all.take(4) == all.take(3).push(Status::Dead));
        all.take(3).lemma_filter_push(Status::Dead, p);
        assert(all.take(4) == all);
    }
    if has_status(sts, Status::Hairy) {
        r.push(Status::Hairy);
    }
    assert(r@ =~= all.take(1).filter(p));
    if has_status(sts, Status::Shaving) {
        r.push(Status::Shaving);
    }
    assert(r@ =~= all.take(2).filter(p));
    if has_status(sts, Status::Shorn) {
        r.push(Status::Shorn);
    }
    assert(r@ =~= all.take(3).filter(p));
    if has_status(sts, Status::Dead) {
        r.push(Status::Dead);
    }
    assert(r@ =~= all.filter(p));
    r
}

fn dir_pieces(ds: &Vec<Status>) -> (r: Vec<Vec<char>>)
    ensures
        r@.map_values(|p: Vec<char>| p@) == ds@.map_values(|s: Status| status_dir(s)),
{
    let mut r: Vec<Vec<char>> = Vec::new();
    let mut i: usize = 0;
    while i < ds.len()
        invariant
            i <= ds.len(),
            r@.map_values(|p: Vec<char>| p@) == ds@.take(i as int).map_values(|s: Status| status_dir(s)),
        decreases ds.len() - i,
    {
        let ghost before = r@;
        r.push(chars_of(ds[i].dir()));
        assert(r@.map_values(|p: Vec<char>| p@) =~= before.map_values(|p: Vec<char>| p@).push(status_dir(ds@[i as int])));
        assert(ds@.take(i + 1) == ds@.take(i as int).push(ds@[i as int]));
        i += 1;
    }
    assert(ds@.take(ds.len() as int) == ds@);
    r
}

fn first_of(tasks: &Vec<Task>, i: usize) -> (b: bool)
    requires
        i < tasks.len(),
    ensures
        b == (index_from(tviews(tasks@), tviews(tasks@)[i as int].id, 0) == Some(i as int)),
{
    let ghost tv = tviews(tasks@);
    let ghost id = tv[i as int].id;
    let mut j: usize = 0;
    while j < i
        invariant
            j <= i < tasks.len(),
            tv == tviews(tasks@),
            id == tv[i as int].id,
            index_from(tv, id, 0) == index_from(tv, id, j as int),
        decreases i - j,
    {
        if same(tasks[j].id.as_str(), tasks[i].id.as_str()) {
            assert(index_from(tv, id, j as int) == Some(j as int));
            return false;
        }
        j += 1;
    }
    true
}

fn dup_issue_exec(tasks: &Vec<Task>, id: &String) -> (r: Vec<Issue>)
    ensures
        issue_views(r@) == dup_issue(tviews(tasks@), id@),
{
    let sts = statuses_of(tasks, id);
    let ds = distinct_of(&sts);
    let mut r: Vec<Issue> = Vec::new();
    if ds.len() > 1 {
        let mut m = chars_of(id.as_str());
        push_str(&mut m, " is in ");
        push_all(&mut m, &dec(ds.len() as u64));
        push_str(&mut m, " status dirs at once: ");
        push_all(&mut m, &join(&dir_pieces(&ds), &chars_of(", ")));
        r.push(Issue { kind: IssueKind::DuplicateStatus, message: string_of(&m), ids: one_id(id) });
    } else if sts.len() > 1 {
        let mut m = chars_of(id.as_str());
        push_str(&mut m, " appears ");
        push_all(&mut m, &dec(sts.len() as u64));
        push_str(&mut m, " times in ");
        push_str(&mut m, ds[0].dir());
        push_str(&mut m, "/");
        r.push(Issue { kind: IssueKind::DuplicateId, message: string_of(&m), ids: one_id(id) });
    }
    assert(issue_views(r@) =~= dup_issue(tviews(tasks@), id@));
    r
}

fn dup_issues_exec(tasks: &Vec<Task>) -> (r: Vec<Issue>)
    ensures
        issue_views(r@) == dup_issues(tviews(tasks@), tasks@.len() as int),
{
    let mut r: Vec<Issue> = Vec::new();
    let mut i: usize = 0;
    while i < tasks.len()
        invariant
            i <= tasks.len(),
            issue_views(r@) == dup_issues(tviews(tasks@), i as int),
        decreases tasks.len() - i,
    {
        if first_of(tasks, i) {
            let more = dup_issue_exec(tasks, &tasks[i].id);
            append_issues(&mut r, more);
        }
        proof {
            assert(tviews(tasks@)[i as int].id == tasks@[i as int].id@);
        }
        i += 1;
    }
    r
}

fn append_issues(r: &mut Vec<Issue>, more: Vec<Issue>)
    ensures
        issue_views(final(r)@) == issue_views(old(r)@) + issue_views(more@),
{
    let mut more = more;
    let ghost a = issue_views(r@);
    let ghost b = issue_views(more@);
    r.append(&mut more);
    assert(issue_views(r@) =~= a + b);
}

fn dangling_of_exec(t: &Task, files: &Vec<(String, Status)>) -> (r: Vec<Issue>)
    ensures
        issue_views(r@) == dangling_of(t@, file_views(files@)),
{
    let mut r: Vec<Issue> = Vec::new();
    match &t.parent {
        Some(p) => {
            if !crate::store::layout::is_taken(files, p.as_str()) {
                let mut m = chars_of(t.id.as_str());
                push_str(&mut m, " has parent ");
                push_str(&mut m, p.as_str());
                push_str(&mut m, " but no such yak exists");
                r.push(Issue { kind: IssueKind::DanglingParent, message: string_of(&m), ids: two_ids(&t.id, p) });
            }
        },
        None => {},
    }
    let ghost head = issue_views(r@);
    let mut j: usize = 0;
    while j < t.depends_on.len()
        invariant
            j <= t.depends_on.len(),
            issue_views(r@) == head + dangling_deps(t@, file_views(files@), j as int),
        decreases t.depends_on.len() - j,
    {
        let d = &t.depends_on[j];
        assert(t@.depends_on[j as int] == d@);
        if !crate::store::layout::is_taken(files, d.as_str()) {
            let mut m = chars_of(t.id.as_str());
            push_str(&mut m, " depends_on ");
            push_str(&mut m, d.as_str());
            push_str(&mut m, " but no such yak exists");
            let ghost before = issue_views(r@);
            r.push(Issue { kind: IssueKind::DanglingDependsOn, message: string_of(&m), ids: two_ids(&t.id, d) });
            assert(issue_views(r@) =~= before + seq![(IssueKind::DanglingDependsOn, t@.id + " depends_on "@ + d@ + " but no such yak exists"@, seq![t@.id, d@])]);
        }
        j += 1;
    }
    assert(issue_views(r@) =~= dangling_of(t@, file_views(files@)));
    r
}

fn dangling_exec(tasks: &Vec<Task>, files: &Vec<(String, Status)>) -> (r: Vec<Issue>)
    ensures
        issue_views(r@) == dangling_issues(tviews(tasks@), file_views(files@), tasks@.len() as int),
{
    let mut r: Vec<Issue> = Vec::new();
    let mut i: usize = 0;
    while i < tasks.len()
        invariant
            i <= tasks.len(),
            issue_views(r@) == dangling_issues(tviews(tasks@), file_views(files@), i as int),
        decreases tasks.len() - i,
    {
        let more = dangling_of_exec(&tasks[i], files);
        append_issues(&mut r, more);
        i += 1;
    }
    r
}

fn verify_passed(body: &str) -> (b: bool)
    ensures
        b == last_verify_passed(body@),
{
    let notes = parse_notes(body);
    let ghost nv = notes@.map_values(|n: NoteEntry| note_view(n));
    let mut i = notes.len();
    assert(nv.take(notes.len() as int) == nv);
    while i > 0
        invariant
            i <= notes.len(),
            nv == notes@.map_values(|n: NoteEntry| note_view(n)),
            nv == parse_notes_spec(body@),
            last_verify(nv) == last_verify(nv.take(i as int)),
        decreases i,
    {
        let text = chars_of(notes[i - 1].text.as_str());
        let ghost t = nv.take(i as int);
        assert(t.last().2 == text@);
        assert(t.drop_last() == nv.take(i - 1));
        if has_prefix(&text, &chars_of("verify: ")) && contains(&text, &chars_of(" -> ")) {
            return contains(&text, &chars_of(" -> PASS"));
        }
        i -= 1;
    }
    false
}

fn evidence_of_exec(t: &Task) -> (r: Vec<Issue>)
    ensures
        issue_views(r@) == evidence_of(t@),
{
    let mut r: Vec<Issue> = Vec::new();
    if t.status == Status::Shorn && parse_notes(t.body.as_str()).len() == 0 {
        let mut m = chars_of(t.id.as_str());
        push_str(&mut m, " is ");
        push_str(&mut m, t.status.dir());
        push_str(&mut m, " but has no recorded note (evidence before shear)");
        r.push(Issue { kind: IssueKind::MissingEvidence, message: string_of(&m), ids: one_id(&t.id) });
    }
    let ghost head = issue_views(r@);
    if t.status == Status::Shorn && t.verify.is_some() && !verify_passed(t.body.as_str()) {
        let mut m = chars_of(t.id.as_str());
        push_str(&mut m, " is shorn with a verify: command but its last verify run was not a PASS (run `yaks verify ");
        push_str(&mut m, t.id.as_str());
        push_str(&mut m, "`)");
        r.push(Issue { kind: IssueKind::UnverifiedShear, message: string_of(&m), ids: one_id(&t.id) });
    }
    assert(issue_views(r@) =~= evidence_of(t@));
    r
}

fn evidence_exec(tasks: &Vec<Task>) -> (r: Vec<Issue>)
    ensures
        issue_views(r@) == evidence_issues(tviews(tasks@), tasks@.len() as int),
{
    let mut r: Vec<Issue> = Vec::new();
    let mut i: usize = 0;
    while i < tasks.len()
        invariant
            i <= tasks.len(),
            issue_views(r@) == evidence_issues(tviews(tasks@), i as int),
        decreases tasks.len() - i,
    {
        let more = evidence_of_exec(&tasks[i]);
        append_issues(&mut r, more);
        i += 1;
    }
    r
}

impl Farm {
    /// A read-only integrity pass: every problem worth a human's attention,
    /// ordered by kind, then by the ids involved, each reported once.
    /// `strict` adds the evidence checks on shorn yaks.
    pub fn doctor(&self, strict: bool) -> (r: Vec<Issue>)
        ensures
            issues_sorted(issue_views(r@)),
            issue_views(r@).no_duplicates(),
            forall|y: (IssueKind, Seq<char>, Seq<Seq<char>>)|
                issue_views(r@).contains(y) <==> found_issues(
                    tviews(self.tasks@),
                    file_views(self.files@),
                    strict,
                ).contains(y),
    {
        let mut found = dup_issues_exec(&self.tasks);
        append_issues(&mut found, dangling_exec(&self.tasks, &self.files));
        if strict {
            append_issues(&mut found, evidence_exec(&self.tasks));
        } else {
            assert(issue_views(found@) =~= issue_views(found@) + Seq::empty());
        }
        let ghost fv = issue_views(found@);
        assert(fv == found_issues(tviews(self.tasks@), file_views(self.files@), strict));
        let mut out: Vec<Issue> = Vec::new();
        let mut found = found;
        let n = found.len();
        assert(issue_views(found@) =~= fv.skip(0));
        while found.len() > 0
            invariant
                n == fv.len(),
                found.len() <= n,
                issue_views(found@) == fv.skip(n - found.len()),
                issues_sorted(issue_views(out@)),
                issue_views(out@).no_duplicates(),
                forall|y: (IssueKind, Seq<char>, Seq<Seq<char>>)|
                    issue_views(out@).contains(y) <==> fv.take(n - found.len()).contains(y),
            decreases found.len(),
        {
            let ghost m = n - found.len();
            let ghost before = issue_views(found@);
            let x = found.remove(0);
            proof {
                assert(before[0] == fv[m]);
                assert(issue_view(x) == fv[m]);
                assert(issue_views(found@) =~= before.drop_first());
                assert(before.drop_first() =~= fv.skip(m + 1));
                assert(fv.take(m + 1) == fv.take(m).push(fv[m]));
            }
            insert_issue(&mut out, x);
            proof {
                assert forall|y: (IssueKind, Seq<char>, Seq<Seq<char>>)|
                    issue_views(out@).contains(y) <==> fv.take(m + 1).contains(y) by {
                    if fv.take(m).contains(y) {
                        let t0 = fv.take(m);
                        let j = choose|j: int| 0 <= j < t0.len() && t0[j] == y;
                        assert(fv.take(m + 1)[j] == y);
                    }
                    if fv.take(m + 1).contains(y) && y != fv[m] {
                        let t1 = fv.take(m + 1);
                        let j = choose|j: int| 0 <= j < t1.len() && t1[j] == y;
                        assert(fv.take(m)[j] == y);
                    }
                    if y == fv[m] {
                        assert(fv.take(m + 1)[m] == y);
                    }
                }
            }
        }
        assert(fv.take(n as int) == fv);
        out
    }
}

} // verus!
