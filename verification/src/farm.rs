//! The core operations over one farm. A [`Farm`] holds a snapshot of the
//! farm's task files (read by the caller) and performs each operation whole:
//! validation and the change to the snapshot, recording the file writes it
//! owes in [`Farm::changes`] for the caller to carry out.

use vstd::prelude::*;
use crate::text::{chars_of, string_of, lt, seq_lt, lemma_lt_trans, lemma_lt_irrefl, push_str, push_all};
use crate::model::{Status, Task, TaskView, tviews, ostr};
use crate::filter::{apply};
use crate::store::config::{Config};
use crate::store::layout::{SchemaStatus, Discovered, SCHEMA};
use crate::store::write::{dec, dec_spec};

pub mod query;
pub mod edit;
pub mod create;
pub mod moves;
pub mod links;
pub mod health;
pub mod rename;
pub mod rename_law;
pub mod names;
pub mod log;
pub mod family;
pub mod attach;
pub mod merge;

verus! {

/// Why opening a farm failed.
pub enum OpenError {
    NoFarm(String),
    SchemaTooNew { found: u32, supported: u32 },
}

/// A file write an operation owes the disk.
pub enum Change {
    /// Write the task to `<root>/<status>/<id>.md`.
    Save(Task),
    /// Remove `<root>/<status>/<id>.md`.
    Remove(Status, String),
    /// Write `<root>/config.yaml` with this text.
    Config(String),
}

pub enum ChangeView {
    Save(TaskView),
    Remove(Status, Seq<char>),
    Config(Seq<char>),
}

impl View for Change {
    type V = ChangeView;

    open spec fn view(&self) -> ChangeView {
        match self {
            Change::Save(t) => ChangeView::Save(t@),
            Change::Remove(s, id) => ChangeView::Remove(*s, id@),
            Change::Config(t) => ChangeView::Config(t@),
        }
    }
}

/// One farm, as read from disk.
pub struct Farm {
    /// The farm's `.yaks/` root.
    pub root: String,
    /// Set when the farm's schema predates this build (best-effort read).
    pub schema_warning: Option<String>,
    /// This repo's default herd, when discovery followed a pointer file.
    pub pointer_prefix: Option<String>,
    /// Every task file that parsed, sorted by id.
    pub tasks: Vec<Task>,
    /// Every task file on disk, parsed or not: its id (the file stem) and
    /// the status directory it lives in.
    pub files: Vec<(String, Status)>,
    /// The effective per-farm config.
    pub config: Config,
    /// The text of `config.yaml` (empty when the file is missing).
    pub config_text: String,
    /// The file writes owed so far, in order.
    pub changes: Vec<Change>,
}

/// Hairy, shaving, shorn, dead.
pub open spec fn rank(s: Status) -> int {
    match s {
        Status::Hairy => 0,
        Status::Shaving => 1,
        Status::Shorn => 2,
        Status::Dead => 3,
    }
}

pub fn rank_of(s: Status) -> (r: u8)
    ensures
        r == rank(s),
{
    match s {
        Status::Hairy => 0,
        Status::Shaving => 1,
        Status::Shorn => 2,
        Status::Dead => 3,
    }
}

/// `a` sorts before `b`: by id, or by status then id.
pub open spec fn before(by_status: bool, a: TaskView, b: TaskView) -> bool {
    if by_status && rank(a.status) != rank(b.status) {
        rank(a.status) < rank(b.status)
    } else {
        seq_lt(a.id, b.id)
    }
}

/// No element sorts before an earlier one.
pub open spec fn sorted_by(by_status: bool, s: Seq<TaskView>) -> bool {
    forall|i: int, j: int| 0 <= i < j < s.len() ==> !before(by_status, #[trigger] s[j], #[trigger] s[i])
}

pub open spec fn files_view(f: Seq<(String, Status)>) -> Seq<(Seq<char>, Status)> {
    f.map_values(|e: (String, Status)| (e.0@, e.1))
}

pub open spec fn changes_view(c: Seq<Change>) -> Seq<ChangeView> {
    c.map_values(|e: Change| e@)
}

/// The task files after one owed write is carried out.
pub open spec fn apply_change(fv: Seq<(Seq<char>, Status)>, c: ChangeView) -> Seq<(Seq<char>, Status)> {
    match c {
        ChangeView::Save(t) => if fv.contains((t.id, t.status)) {
            fv
        } else {
            fv.push((t.id, t.status))
        },
        ChangeView::Remove(st, id) => fv.filter(|e: (Seq<char>, Status)| e != (id, st)),
        ChangeView::Config(_) => fv,
    }
}

/// The task files after the owed writes are carried out, in order.
pub open spec fn apply_changes(fv: Seq<(Seq<char>, Status)>, cs: Seq<ChangeView>) -> Seq<(Seq<char>, Status)>
    decreases cs.len(),
{
    if cs.len() == 0 {
        fv
    } else {
        apply_change(apply_changes(fv, cs.drop_last()), cs.last())
    }
}

proof fn lemma_before_trans(m: bool, a: TaskView, b: TaskView, c: TaskView)
    requires
        before(m, a, b),
        before(m, b, c),
    ensures
        before(m, a, c),
{
    if seq_lt(a.id, b.id) && seq_lt(b.id, c.id) {
        lemma_lt_trans(a.id, b.id, c.id);
    }
}

fn before_exec(by_status: bool, a: &Task, b: &Task) -> (r: bool)
    ensures
        r == before(by_status, a@, b@),
{
    let ra = rank_of(a.status);
    let rb = rank_of(b.status);
    if by_status && ra != rb {
        ra < rb
    } else {
        lt(&chars_of(a.id.as_str()), &chars_of(b.id.as_str()))
    }
}

/// `v` in order (by id, or by status then id), the same tasks.
pub fn sort_tasks(v: Vec<Task>, by_status: bool) -> (r: Vec<Task>)
    ensures
        sorted_by(by_status, tviews(r@)),
        tviews(r@).to_multiset() == tviews(v@).to_multiset(),
{
    let mut r: Vec<Task> = Vec::new();
    let mut v = v;
    let ghost orig = tviews(v@);
    let mut i: usize = 0;
    proof {
        broadcast use vstd::seq_lib::group_to_multiset_ensures;
        assert(orig.take(0) =~= Seq::<TaskView>::empty());
        assert(tviews(r@) =~= Seq::<TaskView>::empty());
    }
    let n = v.len();
    while i < n
        invariant
            n == v.len(),
            i <= n,
            tviews(v@) == orig,
            sorted_by(by_status, tviews(r@)),
            tviews(r@).to_multiset() == orig.take(i as int).to_multiset(),
        decreases n - i,
    {
        let x = v[i].duplicate();
        let mut k: usize = 0;
        while k < r.len() && !before_exec(by_status, &x, &r[k])
            invariant
                k <= r.len(),
                forall|m: int| 0 <= m < k ==> !before(by_status, x@, tviews(r@)[m]),
            decreases r.len() - k,
        {
            k += 1;
        }
        let ghost prev = tviews(r@);
        r.insert(k, x);
        proof {
            broadcast use vstd::seq_lib::group_to_multiset_ensures;
            let after = tviews(r@);
            assert(after =~= prev.insert(k as int, x@));
            prev.insert_ensures(k as int, x@);
            assert(after.remove(k as int) =~= prev);
            assert(after.contains(x@)) by {
                assert(after[k as int] == x@);
            }
            assert(after.to_multiset().remove(x@) == prev.to_multiset());
            assert(after.to_multiset() =~= prev.to_multiset().insert(x@));
            assert(orig.take(i + 1) == orig.take(i as int).push(x@));
            assert forall|a: int, b: int| 0 <= a < b < after.len() implies !before(
                by_status,
                #[trigger] after[b],
                #[trigger] after[a],
            ) by {
                if a < k && b == k {
                    assert(!before(by_status, x@, prev[a]));
                } else if a == k && b > k {
                    assert(after[b] == prev[b - 1]);
                    if k < prev.len() {
                        assert(before(by_status, x@, prev[k as int]));
                        if b - 1 > k {
                            assert(!before(by_status, prev[b - 1], prev[k as int]));
                        }
                        if before(by_status, prev[b - 1], x@) {
                            lemma_before_trans(by_status, prev[b - 1], x@, prev[k as int]);
                            lemma_lt_irrefl(prev[k as int].id);
                        }
                    }
                } else {
                    let a2 = if a < k { a } else { a - 1 };
                    let b2 = if b < k { b } else { b - 1 };
                    assert(after[a] == prev[a2]);
                    assert(after[b] == prev[b2]);
                }
            }
        }
        i += 1;
    }
    assert(orig.take(n as int) == orig);
    r
}

/// The text of the warning an older schema earns.
pub open spec fn older_warning(v: u32) -> Seq<char> {
    "farm schema v"@ + dec_spec(v as nat) + " predates this yaks (v"@ + dec_spec(SCHEMA as nat)
        + "); reading best-effort."@
}

impl Farm {
    /// The snapshot is sorted by id.
    pub open spec fn wf(&self) -> bool {
        sorted_by(false, tviews(self.tasks@))
    }

    /// Take the snapshot of a discovered farm and apply the schema gate: a
    /// newer schema is refused, an older one is read with a warning.
    pub fn open(
        found: Discovered,
        schema: SchemaStatus,
        tasks: Vec<Task>,
        files: Vec<(String, Status)>,
        config: Config,
        config_text: String,
    ) -> (r: Result<Farm, OpenError>)
        ensures
            match schema {
                SchemaStatus::Newer(v) => r matches Err(OpenError::SchemaTooNew { found, supported })
                    && found == v && supported == SCHEMA,
                SchemaStatus::Older(v) => r matches Ok(f) && ostr(f.schema_warning) == Some(
                    older_warning(v),
                ),
                SchemaStatus::Compatible => r matches Ok(f) && f.schema_warning is None,
            },
            r matches Ok(f) ==> {
                &&& f.wf()
                &&& f.root@ == found.root@
                &&& ostr(f.pointer_prefix) == ostr(found.prefix)
                &&& tviews(f.tasks@).to_multiset() == tviews(tasks@).to_multiset()
                &&& files_view(f.files@) == files_view(files@)
                &&& f.config@ == config@
                &&& f.config_text@ == config_text@
                &&& f.changes@.len() == 0
            },
    {
        let warning = match schema {
            SchemaStatus::Newer(v) => {
                return Err(OpenError::SchemaTooNew { found: v, supported: SCHEMA });
            },
            SchemaStatus::Older(v) => {
                let mut w: Vec<char> = Vec::new();
                push_str(&mut w, "farm schema v");
                push_all(&mut w, &dec(v as u64));
                push_str(&mut w, " predates this yaks (v");
                push_all(&mut w, &dec(SCHEMA as u64));
                push_str(&mut w, "); reading best-effort.");
                Some(string_of(&w))
            },
            SchemaStatus::Compatible => None,
        };
        let sorted = sort_tasks(tasks, false);
        Ok(Farm {
            root: found.root,
            schema_warning: warning,
            pointer_prefix: found.prefix,
            tasks: sorted,
            files,
            config,
            config_text,
            changes: Vec::new(),
        })
    }

    /// The farm's `.yaks/` root.
    pub fn root(&self) -> (r: &str)
        ensures
            r@ == self.root@,
    {
        self.root.as_str()
    }

    /// Hand over the writes owed so far, leaving none.
    pub fn take_changes(&mut self) -> (r: Vec<Change>)
        ensures
            changes_view(r@) == changes_view(old(self).changes@),
            final(self).changes@.len() == 0,
            final(self).tasks@ == old(self).tasks@,
            final(self).files@ == old(self).files@,
            final(self).root == old(self).root,
            final(self).config == old(self).config,
            final(self).config_text == old(self).config_text,
            final(self).pointer_prefix == old(self).pointer_prefix,
    {
        let mut out: Vec<Change> = Vec::new();
        std::mem::swap(&mut out, &mut self.changes);
        out
    }
}

} // verus!
