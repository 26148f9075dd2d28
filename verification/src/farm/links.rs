//! Every yak one task points at: formal (parent, dependencies) and informal
//! (validated id mentions in the title and body).

use vstd::prelude::*;
use crate::text::{chars_of, string_of, lines, lines_seq};
use crate::model::{Task, TaskView, tviews, strs};
use crate::refs::{
    known_from_strings, scan, scan_from, strip_wikilinks, unwikilinked, RefMatch, match_view,
};
use crate::farm::Farm;
use crate::refs::lemma_scan_from_sound;
use crate::farm::query::{index_from, lemma_index_from, find_index};

verus! {

/// What kind of pointer an outgoing reference is.
#[derive(Debug, Clone, Copy, PartialEq, Eq, Structural)]
pub enum RefKind {
    Parent,
    Depends,
    Mention,
}

/// One outgoing reference from a task to another yak.
pub struct RefEntry {
    pub kind: RefKind,
    pub id: String,
    /// False only for a formal parent or dependency naming no task; mentions
    /// are validated by the scan, so always resolved.
    pub resolved: bool,
    /// 1-based body line for a mention; `None` for formal refs and title
    /// mentions.
    pub line: Option<usize>,
}

/// Every outgoing reference a task carries.
pub struct TaskRefs {
    pub id: String,
    pub title: String,
    pub entries: Vec<RefEntry>,
}

pub open spec fn entry_view(e: RefEntry) -> (RefKind, Seq<char>, bool, Option<nat>) {
    (
        e.kind,
        e.id@,
        e.resolved,
        match e.line {
            Some(n) => Some(n as nat),
            None => None,
        },
    )
}

/// The ids of the loaded tasks, as a set.
pub open spec fn id_set(tv: Seq<TaskView>) -> Set<Seq<char>> {
    Set::new(|s: Seq<char>| exists|i: int| 0 <= i < tv.len() && tv[i].id == s)
}

/// The mentions in one run of text, tagged with a line.
pub open spec fn mentions(ms: Seq<(int, int, Seq<char>)>, line: Option<nat>) -> Seq<(RefKind, Seq<char>, bool, Option<nat>)> {
    ms.map_values(|m: (int, int, Seq<char>)| (RefKind::Mention, m.2, true, line))
}

/// The mentions in body lines `n..`, each tagged with its 1-based line.
pub open spec fn body_mentions(ls: Seq<Seq<char>>, known: Set<Seq<char>>, n: int) -> Seq<(RefKind, Seq<char>, bool, Option<nat>)>
    decreases ls.len() - n,
{
    if n < 0 || n >= ls.len() {
        seq![]
    } else {
        mentions(scan_from(unwikilinked(ls[n]), 0, known), Some((n + 1) as nat)) + body_mentions(ls, known, n + 1)
    }
}

/// The references of `t` against the ids in `known`: parent, then each
/// dependency, then title mentions, then body mentions line by line.
pub open spec fn refs_of(t: TaskView, known: Set<Seq<char>>) -> Seq<(RefKind, Seq<char>, bool, Option<nat>)> {
    let parent = match t.parent {
        Some(p) => seq![(RefKind::Parent, p, known.contains(p), None::<nat>)],
        None => seq![],
    };
    let deps = t.depends_on.map_values(|d: Seq<char>| (RefKind::Depends, d, known.contains(d), None::<nat>));
    parent + deps + mentions(scan_from(unwikilinked(t.title), 0, known), None) + body_mentions(
        lines_seq(t.body),
        known,
        0,
    )
}

/// Every reference is resolved exactly when its id is known.
pub open spec fn resolved_iff_known(rs: Seq<(RefKind, Seq<char>, bool, Option<nat>)>, known: Set<Seq<char>>) -> bool {
    forall|k: int| 0 <= k < rs.len() ==> (#[trigger] rs[k]).2 == known.contains(rs[k].1)
}

proof fn lemma_mentions_known(s: Seq<char>, known: Set<Seq<char>>, line: Option<nat>)
    ensures
        resolved_iff_known(mentions(scan_from(s, 0, known), line), known),
        forall|k: int| 0 <= k < mentions(scan_from(s, 0, known), line).len() ==> (#[trigger] mentions(scan_from(s, 0, known), line)[k]).2,
{
    lemma_scan_from_sound(s, 0, known);
    let ms = scan_from(s, 0, known);
    assert forall|k: int| 0 <= k < mentions(ms, line).len() implies (#[trigger] mentions(ms, line)[k]).2 == known.contains(mentions(ms, line)[k].1) by {
        assert(mentions(ms, line)[k] == (RefKind::Mention, ms[k].2, true, line));
        let (st, l, id) = ms[k];
    }
}

proof fn lemma_body_mentions_known(ls: Seq<Seq<char>>, known: Set<Seq<char>>, n: int)
    ensures
        resolved_iff_known(body_mentions(ls, known, n), known),
        forall|k: int| 0 <= k < body_mentions(ls, known, n).len() ==> (#[trigger] body_mentions(ls, known, n)[k]).2,
    decreases ls.len() - n,
{
    if 0 <= n < ls.len() {
        let here = mentions(scan_from(unwikilinked(ls[n]), 0, known), Some((n + 1) as nat));
        lemma_mentions_known(unwikilinked(ls[n]), known, Some((n + 1) as nat));
        lemma_body_mentions_known(ls, known, n + 1);
        let rest = body_mentions(ls, known, n + 1);
        assert forall|k: int| 0 <= k < (here + rest).len() implies (#[trigger] (here + rest)[k]).2 == known.contains((here + rest)[k].1) && (here + rest)[k].2 by {
            if k < here.len() {
                assert((here + rest)[k] == here[k]);
            } else {
                assert((here + rest)[k] == rest[k - here.len()]);
            }
        }
    }
}

/// `refs` never invents a reference: each one is flagged resolved exactly
/// when a loaded yak has its id, so every mention it reports (mentions are
/// always resolved) names a real yak, and a formal parent or dependency
/// naming no yak is flagged dangling.
pub proof fn refs_resolve_exactly_the_known_ids(t: TaskView, known: Set<Seq<char>>)
    ensures
        resolved_iff_known(refs_of(t, known), known),
        forall|k: int|
            0 <= k < refs_of(t, known).len() && (#[trigger] refs_of(t, known)[k]).0 == RefKind::Mention
                ==> known.contains(refs_of(t, known)[k].1),
{
    let parent = match t.parent {
        Some(p) => seq![(RefKind::Parent, p, known.contains(p), None::<nat>)],
        None => seq![],
    };
    let deps = t.depends_on.map_values(|d: Seq<char>| (RefKind::Depends, d, known.contains(d), None::<nat>));
    let title = mentions(scan_from(unwikilinked(t.title), 0, known), None);
    let body = body_mentions(lines_seq(t.body), known, 0);
    lemma_mentions_known(unwikilinked(t.title), known, None);
    lemma_body_mentions_known(lines_seq(t.body), known, 0);
    let all = parent + deps + title + body;
    assert(refs_of(t, known) == all);
    assert forall|k: int| 0 <= k < all.len() implies (#[trigger] all[k]).2 == known.contains(all[k].1) by {
        let a = parent.len() as int;
        let b = a + deps.len();
        let c = b + title.len();
        if k < a {
            assert(all[k] == parent[k]);
        } else if k < b {
            assert(all[k] == deps[k - a]);
        } else if k < c {
            assert(all[k] == title[k - b]);
        } else {
            assert(all[k] == body[k - c]);
        }
    }
    assert forall|k: int| 0 <= k < all.len() && (#[trigger] all[k]).0 == RefKind::Mention implies known.contains(all[k].1) by {
        let a = parent.len() as int;
        let b = a + deps.len();
        let c = b + title.len();
        if k < a {
            assert(all[k] == parent[k]);
        } else if k < b {
            assert(all[k] == deps[k - a]);
        } else if k < c {
            assert(all[k] == title[k - b]);
            assert(title[k - b].2);
        } else {
            assert(all[k] == body[k - c]);
            assert(body[k - c].2);
        }
        assert(all[k].2 == known.contains(all[k].1));
    }
}

pub fn task_ids(tasks: &Vec<Task>) -> (r: Vec<String>)
    ensures
        strs(r@) == tviews(tasks@).map_values(|t: TaskView| t.id),
{
    let mut r: Vec<String> = Vec::new();
    let mut i: usize = 0;
    while i < tasks.len()
        invariant
            i <= tasks.len(),
            strs(r@) == tviews(tasks@).take(i as int).map_values(|t: TaskView| t.id),
        decreases tasks.len() - i,
    {
        let ghost before = r@;
        r.push(tasks[i].id.clone());
        assert(strs(r@) =~= strs(before).push(tasks@[i as int].id@));
        assert(tviews(tasks@).take(i + 1) == tviews(tasks@).take(i as int).push(tasks@[i as int]@));
        i += 1;
    }
    assert(tviews(tasks@).take(tasks.len() as int) == tviews(tasks@));
    r
}

fn push_mentions(entries: &mut Vec<RefEntry>, ms: Vec<RefMatch>, line: Option<usize>)
    ensures
        final(entries)@.map_values(|e: RefEntry| entry_view(e)) == old(entries)@.map_values(
            |e: RefEntry| entry_view(e),
        ) + mentions(
            ms@.map_values(|m: RefMatch| match_view(m)),
            match line {
                Some(n) => Some(n as nat),
                None => None,
            },
        ),
{
    let ghost start = entries@.map_values(|e: RefEntry| entry_view(e));
    let ghost lv: Option<nat> = match line {
        Some(n) => Some(n as nat),
        None => None,
    };
    let ghost mv = ms@.map_values(|m: RefMatch| match_view(m));
    let mut i: usize = 0;
    assert(mentions(mv.take(0), lv) =~= Seq::empty());
    while i < ms.len()
        invariant
            i <= ms.len(),
            mv == ms@.map_values(|m: RefMatch| match_view(m)),
            lv == match line {
                Some(n) => Some(n as nat),
                None => None::<nat>,
            },
            entries@.map_values(|e: RefEntry| entry_view(e)) == start + mentions(mv.take(i as int), lv),
        decreases ms.len() - i,
    {
        let ghost before = entries@;
        let e = RefEntry { kind: RefKind::Mention, id: ms[i].id.clone(), resolved: true, line };
        let ghost eg = e;
        assert(entry_view(eg) == (RefKind::Mention, ms@[i as int].id@, true, lv));
        entries.push(e);
        assert(entries@ == before.push(eg));
        proof {
            assert(mv.take(i + 1) == mv.take(i as int).push(mv[i as int]));
            assert(mentions(mv.take(i + 1), lv) =~= mentions(mv.take(i as int), lv).push(
                (RefKind::Mention, ms@[i as int].id@, true, lv),
            ));
            assert(entries@.map_values(|e: RefEntry| entry_view(e)) =~= before.map_values(
                |e: RefEntry| entry_view(e),
            ).push((RefKind::Mention, ms@[i as int].id@, true, lv)));
        }
        i += 1;
    }
    assert(mv.take(ms.len() as int) == mv);
}

impl Farm {
    /// Every yak that yak `id` points at, by dependency or by mention in its body,
    /// each flagged resolved or dangling; `None` if no task has that id.
    pub fn refs(&self, id: &str) -> (r: Option<TaskRefs>)
        ensures
            match index_from(tviews(self.tasks@), id@, 0) {
                None => r is None,
                Some(k) => r matches Some(tr) && tr.id@ == tviews(self.tasks@)[k].id && tr.title@
                    == tviews(self.tasks@)[k].title && tr.entries@.map_values(|e: RefEntry| entry_view(e))
                    == refs_of(tviews(self.tasks@)[k], id_set(tviews(self.tasks@))),
            },
    {
        let ghost tv = tviews(self.tasks@);
        proof {
            lemma_index_from(tv, id@, 0);
        }
        let k = match find_index(&self.tasks, id) {
            Some(k) => k,
            None => return None,
        };
        let task = &self.tasks[k];
        let ids = task_ids(&self.tasks);
        let known = known_from_strings(&ids);
        let ghost ks = id_set(tv);
        proof {
            known.lemma_as_set();
            assert(strs(ids@).len() == tv.len());
            assert forall|s: Seq<char>| known.as_set().contains(s) == ks.contains(s) by {
                if known.knows(s) {
                    let i = choose|i: int| 0 <= i < ids.len() && ids@[i]@ == s;
                    assert(strs(ids@)[i] == ids@[i]@);
                    assert(tv.map_values(|t: TaskView| t.id)[i] == tv[i].id);
                }
                if ks.contains(s) {
                    let i = choose|i: int| 0 <= i < tv.len() && tv[i].id == s;
                    assert(tv.map_values(|t: TaskView| t.id)[i] == tv[i].id);
                    assert(strs(ids@)[i] == ids@[i]@);
                    assert(known.knows(s));
                }
            }
            assert(known.as_set() =~= ks);
        }
        let mut entries: Vec<RefEntry> = Vec::new();
        let ghost t = task@;
        match &task.parent {
            Some(p) => {
                let res = known.contains(p.as_str());
                entries.push(RefEntry { kind: RefKind::Parent, id: p.clone(), resolved: res, line: None });
            },
            None => {},
        }
        let ghost parent_part = entries@.map_values(|e: RefEntry| entry_view(e));
        assert(parent_part =~= match t.parent {
            Some(p) => seq![(RefKind::Parent, p, ks.contains(p), None::<nat>)],
            None => seq![],
        });
        let ghost dmap = |d: Seq<char>| (RefKind::Depends, d, ks.contains(d), None::<nat>);
        let mut j: usize = 0;
        while j < task.depends_on.len()
            invariant
                j <= task.depends_on.len(),
                t == task@,
                known.as_set() == ks,
                dmap == (|d: Seq<char>| (RefKind::Depends, d, ks.contains(d), None::<nat>)),
                forall|s: Seq<char>| known.as_set().contains(s) == known.knows(s),
                entries@.map_values(|e: RefEntry| entry_view(e)) == parent_part + t.depends_on.take(
                    j as int,
                ).map_values(dmap),
            decreases task.depends_on.len() - j,
        {
            let d = &task.depends_on[j];
            let res = known.contains(d.as_str());
            let ghost before = entries@;
            let e = RefEntry { kind: RefKind::Depends, id: d.clone(), resolved: res, line: None };
            let ghost eg = e;
            assert(entry_view(eg) == dmap(d@));
            entries.push(e);
            assert(entries@ == before.push(eg));
            proof {
                assert(t.depends_on[j as int] == d@);
                assert(t.depends_on.take(j + 1) == t.depends_on.take(j as int).push(d@));
                assert(entries@.map_values(|e: RefEntry| entry_view(e)) =~= before.map_values(
                    |e: RefEntry| entry_view(e),
                ).push(dmap(d@)));
                assert(t.depends_on.take(j + 1).map_values(dmap) =~= t.depends_on.take(j as int).map_values(dmap).push(dmap(d@)));
            }
            j += 1;
        }
        assert(t.depends_on.take(task.depends_on.len() as int) == t.depends_on);
        let title_ms = scan(strip_wikilinks(task.title.as_str()).as_str(), &known);
        push_mentions(&mut entries, title_ms, None);
        let ghost head = entries@.map_values(|e: RefEntry| entry_view(e));
        let body_lines = lines(&chars_of(task.body.as_str()));
        let ghost ls = lines_seq(t.body);
        let mut n: usize = 0;
        while n < body_lines.len()
            invariant
                n <= body_lines.len(),
                body_lines@.map_values(|p: Vec<char>| p@) == ls,
                known.as_set() == ks,
                entries@.map_values(|e: RefEntry| entry_view(e)) + body_mentions(ls, ks, n as int)
                    == head + body_mentions(ls, ks, 0),
            decreases body_lines.len() - n,
        {
            let raw = string_of(&body_lines[n]);
            assert(raw@ == ls[n as int]);
            let ms = scan(strip_wikilinks(raw.as_str()).as_str(), &known);
            let ghost before = entries@.map_values(|e: RefEntry| entry_view(e));
            push_mentions(&mut entries, ms, Some(n + 1));
            proof {
                assert(body_mentions(ls, ks, n as int) == mentions(
                    scan_from(unwikilinked(ls[n as int]), 0, ks),
                    Some((n + 1) as nat),
                ) + body_mentions(ls, ks, n + 1));
                vstd::seq_lib::lemma_concat_associative(before, mentions(scan_from(unwikilinked(ls[n as int]), 0, ks), Some((n + 1) as nat)), body_mentions(ls, ks, n + 1));
            }
            n += 1;
        }
        proof {
            assert(body_mentions(ls, ks, body_lines.len() as int) =~= Seq::empty());
            assert(entries@.map_values(|e: RefEntry| entry_view(e)) =~= head + body_mentions(ls, ks, 0));
        }
        Some(TaskRefs { id: task.id.clone(), title: task.title.clone(), entries })
    }
}

} // verus!
