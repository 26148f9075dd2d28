//! Minting a new yak: herd routing, defaults from the config cascade, and a
//! collision-free id.

use vstd::prelude::*;
use crate::text::{chars_of, string_of, push_str, lt, seq_lt, lemma_lt_trans, lemma_lt_irrefl};
use crate::model::{Status, Task, TaskView, tviews, strs, ostr};
use crate::refs::{has_ref_shape, ref_shape};
use crate::store::config::{default_type_spec, default_priority_spec};
use crate::store::layout::{file_views, find_task_file, file_status, generate_id, free_id};
use crate::farm::{Farm, Change, ChangeView, changes_view, before};
use crate::farm::edit::same_frame;

verus! {

/// Fields for a new task (defaults resolved from config inside `create`).
pub struct NewTask {
    pub title: String,
    /// Which herd (id prefix) the new yak joins; `None` uses this repo's
    /// pointer herd, else the farm's default.
    pub prefix: Option<String>,
    pub kind: Option<String>,
    pub priority: Option<u8>,
    pub parent: Option<String>,
    pub labels: Vec<String>,
    pub depends_on: Vec<String>,
    pub source: Option<String>,
    pub description: Option<String>,
    pub verify: Option<String>,
}

pub enum CreateOutcome {
    Created(Box<Task>),
    ParentNotFound(String),
    /// An explicit or pointer herd that would mint an id outside the
    /// reference grammar.
    InvalidPrefix(String),
}

/// The herd asked for: an explicit one, else the pointer's; an empty name
/// counts as none.
pub open spec fn asked_herd(explicit: Option<Seq<char>>, pointer: Option<Seq<char>>) -> Option<Seq<char>> {
    let c = match explicit {
        Some(p) => Some(p),
        None => pointer,
    };
    match c {
        Some(p) => if p.len() > 0 {
            Some(p)
        } else {
            None
        },
        None => None,
    }
}

/// The new task, with `id` in `herd`.
pub open spec fn minted(new: NewTask, id: Seq<char>, herd: Seq<char>, c: crate::store::config::ConfigView, now: Seq<char>) -> TaskView {
    TaskView {
        id: id,
        title: new.title@,
        kind: match new.kind {
            Some(k) => k@,
            None => default_type_spec(c, herd),
        },
        priority: match new.priority {
            Some(p) => p,
            None => default_priority_spec(c, herd),
        },
        status: Status::Hairy,
        created: Some(now),
        updated: Some(now),
        parent: ostr(new.parent),
        labels: strs(new.labels@),
        depends_on: strs(new.depends_on@),
        source: ostr(new.source),
        needs: None,
        verify: ostr(new.verify),
        extra: seq![],
        body: match new.description {
            Some(d) => d@,
            None => seq![],
        },
    }
}

/// A named parent has no task file.
pub open spec fn parent_missing(f: Farm, new: NewTask) -> bool {
    new.parent matches Some(p) && file_status(file_views(f.files@), p@) is None
}

/// The asked-for herd would not give ids of the reference shape.
pub open spec fn bad_herd(f: Farm, new: NewTask) -> bool {
    asked_herd(ostr(new.prefix), ostr(f.pointer_prefix)) matches Some(h) && !ref_shape(h + "-0000"@)
}

/// The herd the new yak joins.
pub open spec fn herd_for(f: Farm, new: NewTask) -> Seq<char> {
    match asked_herd(ostr(new.prefix), ostr(f.pointer_prefix)) {
        Some(h) => h,
        None => f.config.prefix@,
    }
}

impl Farm {
    /// Add `t` to the snapshot at its place in id order.
    pub fn insert_task(&mut self, t: Task)
        requires
            old(self).wf(),
        ensures
            final(self).wf(),
            same_frame(*final(self), *old(self)),
            final(self).files@ == old(self).files@,
            final(self).changes@ == old(self).changes@,
            exists|k: int|
                0 <= k <= old(self).tasks@.len() && tviews(final(self).tasks@) == tviews(
                    old(self).tasks@,
                ).insert(k, t@),
    {
        let mut k: usize = 0;
        while k < self.tasks.len() && !lt(&chars_of(t.id.as_str()), &chars_of(self.tasks[k].id.as_str()))
            invariant
                k <= self.tasks.len(),
                forall|m: int| 0 <= m < k ==> !seq_lt(t.id@, tviews(self.tasks@)[m].id),
            decreases self.tasks.len() - k,
        {
            k += 1;
        }
        let ghost prev = tviews(self.tasks@);
        let ghost tv = t@;
        self.tasks.insert(k, t);
        proof {
            let after = tviews(self.tasks@);
            assert(after =~= prev.insert(k as int, tv));
            assert forall|a: int, b: int| 0 <= a < b < after.len() implies !before(
                false,
                #[trigger] after[b],
                #[trigger] after[a],
            ) by {
                if a < k && b == k {
                    assert(!seq_lt(tv.id, prev[a].id));
                } else if a == k && b > k {
                    assert(after[b] == prev[b - 1]);
                    if k < prev.len() {
                        assert(seq_lt(tv.id, prev[k as int].id));
                        if b - 1 > k {
                            assert(!before(false, prev[b - 1], prev[k as int]));
                        }
                        if seq_lt(prev[b - 1].id, tv.id) {
                            lemma_lt_trans(prev[b - 1].id, tv.id, prev[k as int].id);
                            lemma_lt_irrefl(prev[k as int].id);
                        }
                    }
                } else {
                    let a2 = if a < k { a } else { a - 1 };
                    let b2 = if b < k { b } else { b - 1 };
                    assert(after[a] == prev[a2]);
                    assert(after[b] == prev[b2]);
                }
            }
        }
    }

    /// Mint a new hairy yak. A named parent must have a task file; the herd
    /// is the explicit one, else this repo's pointer herd, else the farm's
    /// default, and must give ids of the reference shape; type and priority
    /// default through the herd's config. `seed` drives the id draw, `now`
    /// stamps `created`/`updated`. `Err` when every drawn id was taken.
    pub fn create(&mut self, new: NewTask, seed: u64, now: &str) -> (r: Result<CreateOutcome, String>)
        requires
            old(self).wf(),
        ensures
            final(self).wf(),
            same_frame(*final(self), *old(self)),
            parent_missing(*old(self), new) ==> {
                &&& r matches Ok(CreateOutcome::ParentNotFound(p)) && ostr(new.parent) == Some(p@)
                &&& final(self).tasks@ == old(self).tasks@ && final(self).files@ == old(self).files@
                &&& final(self).changes@ == old(self).changes@
            },
            !parent_missing(*old(self), new) && bad_herd(*old(self), new) ==> {
                &&& r matches Ok(CreateOutcome::InvalidPrefix(p)) && asked_herd(
                    ostr(new.prefix),
                    ostr(old(self).pointer_prefix),
                ) == Some(p@)
                &&& final(self).tasks@ == old(self).tasks@ && final(self).files@ == old(self).files@
                &&& final(self).changes@ == old(self).changes@
            },
            !parent_missing(*old(self), new) && !bad_herd(*old(self), new) && free_id(
                file_views(old(self).files@),
                herd_for(*old(self), new),
                seed,
                0,
            ) is None ==> {
                &&& r is Err
                &&& final(self).tasks@ == old(self).tasks@ && final(self).files@ == old(self).files@
                &&& final(self).changes@ == old(self).changes@
            },
            !parent_missing(*old(self), new) && !bad_herd(*old(self), new) && free_id(
                file_views(old(self).files@),
                herd_for(*old(self), new),
                seed,
                0,
            ) is Some ==> {
                let id = free_id(file_views(old(self).files@), herd_for(*old(self), new), seed, 0)->0;
                let t = minted(new, id, herd_for(*old(self), new), old(self).config@, now@);
                &&& r matches Ok(CreateOutcome::Created(b)) && b@ == t
                &&& exists|k: int|
                    0 <= k <= old(self).tasks@.len() && tviews(final(self).tasks@) == tviews(
                        old(self).tasks@,
                    ).insert(k, t)
                &&& file_views(final(self).files@) == file_views(old(self).files@).push((id, Status::Hairy))
                &&& changes_view(final(self).changes@) == changes_view(old(self).changes@).push(
                    ChangeView::Save(t),
                )
            },
    {
        proof {
            reveal_strlit("-0000");
        }
        if let Some(p) = &new.parent {
            if find_task_file(&self.files, p.as_str()).is_none() {
                return Ok(CreateOutcome::ParentNotFound(p.clone()));
            }
        }
        let asked: Option<&String> = match &new.prefix {
            Some(p) => Some(p),
            None => match &self.pointer_prefix {
                Some(p) => Some(p),
                None => None,
            },
        };
        let asked: Option<&String> = match asked {
            Some(p) => if chars_of(p.as_str()).len() > 0 {
                Some(p)
            } else {
                None
            },
            None => None,
        };
        let herd: String = match asked {
            Some(p) => {
                let mut probe = chars_of(p.as_str());
                push_str(&mut probe, "-0000");
                if !has_ref_shape(string_of(&probe).as_str()) {
                    return Ok(CreateOutcome::InvalidPrefix(p.clone()));
                }
                p.clone()
            },
            None => self.config.prefix.clone(),
        };
        let id = match generate_id(&self.files, herd.as_str(), seed) {
            Some(id) => id,
            None => {
                return Err(crate::text::owned("could not generate a unique id after 1000 attempts"));
            },
        };
        let kind = match &new.kind {
            Some(k) => k.clone(),
            None => self.config.default_type_for(herd.as_str()),
        };
        let priority = match new.priority {
            Some(p) => p,
            None => self.config.default_priority_for(herd.as_str()),
        };
        let ghost nv = new;
        proof {
            let fv = file_views(self.files@);
            assert(!(nv.parent matches Some(p) && file_status(fv, p@) is None));
            let asked_v = asked_herd(ostr(nv.prefix), ostr(self.pointer_prefix));
            assert(asked_v == match asked { Some(p) => Some(p@), None => None });
            assert(!(asked_v matches Some(h) && !ref_shape(h + "-0000"@)));
            assert(herd@ == match asked_v { Some(h) => h, None => self.config.prefix@ });
        }
        let NewTask { title, prefix: _, kind: _, priority: _, parent, labels, depends_on, source, description, verify } = new;
        let body = match description {
            Some(d) => d,
            None => String::new(),
        };
        let task = Task {
            id: id.clone(),
            title,
            kind,
            priority,
            status: Status::Hairy,
            created: Some(crate::text::owned(now)),
            updated: Some(crate::text::owned(now)),
            parent,
            labels,
            depends_on,
            source,
            needs: None,
            verify,
            extra: Vec::new(),
            body,
        };
        proof {
            assert(strs(task.extra@) =~= Seq::<Seq<char>>::empty());
            assert(task@ == minted(nv, id@, herd@, self.config@, now@));
        }
        let copy = task.duplicate();
        self.insert_task(task);
        let ghost pf = file_views(self.files@);
        self.files.push((id, Status::Hairy));
        assert(file_views(self.files@) =~= pf.push((copy@.id, Status::Hairy)));
        let ghost pc = changes_view(self.changes@);
        let b = Box::new(copy.duplicate());
        self.changes.push(Change::Save(copy));
        assert(changes_view(self.changes@) =~= pc.push(ChangeView::Save(b@)));
        Ok(CreateOutcome::Created(b))
    }
}

} // verus!
