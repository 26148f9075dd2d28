//! The note log: timestamped notes across a filtered set of yaks, oldest
//! first.

use vstd::prelude::*;
use crate::text::{chars_of, same, lt, seq_lt, lemma_lt_trans, lemma_lt_irrefl};
use crate::model::{Status, Task, TaskView, tviews, ostr};
use crate::filter::{FilterSpec, apply};
use crate::store::notes::{parse_notes, parse_notes_spec, note_view, NoteEntry, ostr_ref};
use crate::store::time::{parse_ts, parse_since, since_spec, rfc3339, instant_lt};
use crate::farm::Farm;
use crate::farm::query::ref_views;

verus! {

/// One timestamped note tagged with the yak it belongs to.
pub struct LogEntry {
    pub id: String,
    pub title: String,
    pub ts: String,
    pub actor: Option<String>,
    pub note: String,
}

pub open spec fn log_view(e: LogEntry) -> (Seq<char>, Seq<char>, Seq<char>, Option<Seq<char>>, Seq<char>) {
    (e.id@, e.title@, e.ts@, ostr(e.actor), e.note@)
}

/// A note the log keeps: not timestamped before the cutoff (an unreadable
/// timestamp is kept), and by the asked-for actor if one is.
pub open spec fn note_kept(n: (Seq<char>, Option<Seq<char>>, Seq<char>), cut: Option<(i64, u32)>, by: Option<Seq<char>>) -> bool {
    &&& match cut {
        Some(c) => match rfc3339(n.0) {
            Some(t) => !instant_lt(t, c),
            None => true,
        },
        None => true,
    }
    &&& match by {
        Some(w) => n.1 == Some(w),
        None => true,
    }
}

/// The kept notes of `t`, as log rows.
pub open spec fn rows_of(t: TaskView, cut: Option<(i64, u32)>, by: Option<Seq<char>>) -> Seq<(Seq<char>, Seq<char>, Seq<char>, Option<Seq<char>>, Seq<char>)> {
    parse_notes_spec(t.body).filter(|n: (Seq<char>, Option<Seq<char>>, Seq<char>)| note_kept(n, cut, by)).map_values(
        |n: (Seq<char>, Option<Seq<char>>, Seq<char>)| (t.id, t.title, n.0, n.1, n.2),
    )
}

/// The rows of the first `k` tasks, in order.
pub open spec fn log_rows(ts: Seq<TaskView>, cut: Option<(i64, u32)>, by: Option<Seq<char>>, k: int) -> Seq<(Seq<char>, Seq<char>, Seq<char>, Option<Seq<char>>, Seq<char>)>
    decreases k,
{
    if k <= 0 || k > ts.len() {
        seq![]
    } else {
        log_rows(ts, cut, by, k - 1) + rows_of(ts[k - 1], cut, by)
    }
}


/// With an actor asked for, the log lists only notes stamped by that actor:
/// a note by another actor, or by none, is never a row.
pub proof fn log_by_lists_only_that_actor(
    ts: Seq<TaskView>,
    cut: Option<(i64, u32)>,
    w: Seq<char>,
    k: int,
)
    ensures
        forall|i: int| 0 <= i < log_rows(ts, cut, Some(w), k).len() ==> (#[trigger] log_rows(ts, cut, Some(w), k)[i]).3 == Some(w),
    decreases k,
{
    if 0 < k <= ts.len() {
        log_by_lists_only_that_actor(ts, cut, w, k - 1);
        let a = log_rows(ts, cut, Some(w), k - 1);
        let t = ts[k - 1];
        let pred = |n: (Seq<char>, Option<Seq<char>>, Seq<char>)| note_kept(n, cut, Some(w));
        let f = parse_notes_spec(t.body).filter(pred);
        let b = rows_of(t, cut, Some(w));
        assert forall|i: int| 0 <= i < (a + b).len() implies (#[trigger] (a + b)[i]).3 == Some(w) by {
            if i < a.len() {
                assert((a + b)[i] == a[i]);
            } else {
                assert((a + b)[i] == b[i - a.len()]);
                parse_notes_spec(t.body).lemma_filter_pred(pred, i - a.len());
                assert(pred(f[i - a.len()]));
            }
        }
    }
}

proof fn lemma_same_elems<A>(a: Seq<A>, b: Seq<A>)
    requires
        a.to_multiset() == b.to_multiset(),
    ensures
        forall|x: A| a.contains(x) ==> b.contains(x),
{
    broadcast use vstd::seq_lib::group_to_multiset_ensures;
    a.to_multiset_ensures();
    b.to_multiset_ensures();
    assert forall|x: A| a.contains(x) implies b.contains(x) by {
        assert(a.to_multiset().count(x) > 0);
    }
}

/// Oldest first (by timestamp text), then by id.
pub open spec fn row_before(a: (Seq<char>, Seq<char>, Seq<char>, Option<Seq<char>>, Seq<char>), b: (Seq<char>, Seq<char>, Seq<char>, Option<Seq<char>>, Seq<char>)) -> bool {
    seq_lt(a.2, b.2) || (a.2 == b.2 && seq_lt(a.0, b.0))
}

pub open spec fn rows_sorted(s: Seq<(Seq<char>, Seq<char>, Seq<char>, Option<Seq<char>>, Seq<char>)>) -> bool {
    forall|i: int, j: int| 0 <= i < j < s.len() ==> !row_before(#[trigger] s[j], #[trigger] s[i])
}

pub open spec fn log_views(v: Seq<LogEntry>) -> Seq<(Seq<char>, Seq<char>, Seq<char>, Option<Seq<char>>, Seq<char>)> {
    v.map_values(|e: LogEntry| log_view(e))
}

proof fn lemma_row_before_trans(
    a: (Seq<char>, Seq<char>, Seq<char>, Option<Seq<char>>, Seq<char>),
    b: (Seq<char>, Seq<char>, Seq<char>, Option<Seq<char>>, Seq<char>),
    c: (Seq<char>, Seq<char>, Seq<char>, Option<Seq<char>>, Seq<char>),
)
    requires
        row_before(a, b),
        row_before(b, c),
    ensures
        row_before(a, c),
{
    if seq_lt(a.2, b.2) && seq_lt(b.2, c.2) {
        lemma_lt_trans(a.2, b.2, c.2);
    }
    if a.2 == b.2 && b.2 == c.2 {
        lemma_lt_irrefl(a.2);
        lemma_lt_trans(a.0, b.0, c.0);
    }
}

proof fn lemma_row_before_irrefl(a: (Seq<char>, Seq<char>, Seq<char>, Option<Seq<char>>, Seq<char>))
    ensures
        !row_before(a, a),
{
    lemma_lt_irrefl(a.2);
    lemma_lt_irrefl(a.0);
}

fn row_before_exec(a: &LogEntry, b: &LogEntry) -> (r: bool)
    ensures
        r == row_before(log_view(*a), log_view(*b)),
{
    let at = chars_of(a.ts.as_str());
    let bt = chars_of(b.ts.as_str());
    lt(&at, &bt) || (crate::text::eq(&at, &bt) && lt(&chars_of(a.id.as_str()), &chars_of(b.id.as_str())))
}

fn sort_rows(v: Vec<LogEntry>) -> (r: Vec<LogEntry>)
    ensures
        rows_sorted(log_views(r@)),
        log_views(r@).to_multiset() == log_views(v@).to_multiset(),
{
    let ghost orig = log_views(v@);
    let mut v = v;
    let mut r: Vec<LogEntry> = Vec::new();
    proof {
        broadcast use vstd::seq_lib::group_to_multiset_ensures;
        assert(orig.skip(0) == orig);
        assert(log_views(r@) =~= Seq::empty());
    }
    let n = v.len();
    while v.len() > 0
        invariant
            n == orig.len(),
            v.len() <= n,
            log_views(v@) == orig.skip(n - v.len()),
            rows_sorted(log_views(r@)),
            log_views(r@).to_multiset() == orig.take(n - v.len()).to_multiset(),
        decreases v.len(),
    {
        let ghost m = n - v.len();
        let ghost before = log_views(v@);
        let x = v.remove(0);
        let ghost xv = log_view(x);
        proof {
            assert(before[0] == orig[m]);
            assert(log_views(v@) =~= before.drop_first());
            assert(before.drop_first() =~= orig.skip(m + 1));
        }
        let mut k: usize = 0;
        while k < r.len() && !row_before_exec(&x, &r[k])
            invariant
                k <= r.len(),
                xv == log_view(x),
                forall|q: int| 0 <= q < k ==> !row_before(xv, log_views(r@)[q]),
            decreases r.len() - k,
        {
            k += 1;
        }
        let ghost prev = log_views(r@);
        r.insert(k, x);
        proof {
            broadcast use vstd::seq_lib::group_to_multiset_ensures;
            let after = log_views(r@);
            assert(after =~= prev.insert(k as int, xv));
            prev.insert_ensures(k as int, xv);
            assert(after.remove(k as int) =~= prev);
            assert(after.contains(xv)) by {
                assert(after[k as int] == xv);
            }
            assert(after.to_multiset().remove(xv) == prev.to_multiset());
            assert(after.to_multiset() =~= prev.to_multiset().insert(xv));
            assert(orig.take(m + 1) == orig.take(m).push(xv));
            assert forall|a: int, b: int| 0 <= a < b < after.len() implies !row_before(#[trigger] after[b], #[trigger] after[a]) by {
                if a < k && b == k {
                    assert(!row_before(xv, prev[a]));
                } else if a == k && b > k {
                    assert(after[b] == prev[b - 1]);
                    if k < prev.len() {
                        assert(row_before(xv, prev[k as int]));
                        if b - 1 > k {
                            assert(!row_before(prev[b - 1], prev[k as int]));
                        }
                        if row_before(prev[b - 1], xv) {
                            lemma_row_before_trans(prev[b - 1], xv, prev[k as int]);
                            lemma_row_before_irrefl(prev[k as int]);
                        }
                    }
                } else {
                    let a2 = if a < k { a } else { a - 1 };
                    let b2 = if b < k { b } else { b - 1 };
                    assert(after[a] == prev[a2]);
                    assert(after[b] == prev[b2]);
                }
            }
        }
    }
    assert(orig.take(n as int) == orig);
    r
}

fn has_dead(v: &Vec<Status>) -> (b: bool)
    ensures
        b == v@.contains(Status::Dead),
{
    let mut i: usize = 0;
    while i < v.len()
        invariant
            i <= v.len(),
            forall|j: int| 0 <= j < i ==> v@[j] != Status::Dead,
        decreases v.len() - i,
    {
        if v[i] == Status::Dead {
            return true;
        }
        i += 1;
    }
    false
}

fn kept(n: &NoteEntry, cut: Option<(i64, u32)>, by: Option<&str>) -> (b: bool)
    ensures
        b == note_kept(note_view(*n), cut, ostr_ref(by)),
{
    let time_ok = match cut {
        Some(c) => match parse_ts(n.ts.as_str()) {
            Some(t) => !(t.0 < c.0 || (t.0 == c.0 && t.1 < c.1)),
            None => true,
        },
        None => true,
    };
    let who_ok = match by {
        Some(w) => match &n.actor {
            Some(a) => same(a.as_str(), w),
            None => false,
        },
        None => true,
    };
    time_ok && who_ok
}

fn rows_for(t: &Task, cut: Option<(i64, u32)>, by: Option<&str>) -> (r: Vec<LogEntry>)
    ensures
        log_views(r@) == rows_of(t@, cut, ostr_ref(by)),
{
    let notes = parse_notes(t.body.as_str());
    let ghost nv = notes@.map_values(|n: NoteEntry| note_view(n));
    let ghost p = |n: (Seq<char>, Option<Seq<char>>, Seq<char>)| note_kept(n, cut, ostr_ref(by));
    let ghost f = |n: (Seq<char>, Option<Seq<char>>, Seq<char>)| (t@.id, t@.title, n.0, n.1, n.2);
    let mut r: Vec<LogEntry> = Vec::new();
    let mut i: usize = 0;
    assert(nv.take(0).filter(p).map_values(f) =~= Seq::empty());
    while i < notes.len()
        invariant
            i <= notes.len(),
            nv == notes@.map_values(|n: NoteEntry| note_view(n)),
            nv == parse_notes_spec(t@.body),
            p == (|n: (Seq<char>, Option<Seq<char>>, Seq<char>)| note_kept(n, cut, ostr_ref(by))),
            f == (|n: (Seq<char>, Option<Seq<char>>, Seq<char>)| (t@.id, t@.title, n.0, n.1, n.2)),
            log_views(r@) == nv.take(i as int).filter(p).map_values(f),
        decreases notes.len() - i,
    {
        let n = &notes[i];
        proof {
            assert(nv[i as int] == note_view(*n));
            assert(nv.take(i + 1) == nv.take(i as int).push(nv[i as int]));
            nv.take(i as int).lemma_filter_push(nv[i as int], p);
        }
        if kept(n, cut, by) {
            let e = LogEntry {
                id: t.id.clone(),
                title: t.title.clone(),
                ts: n.ts.clone(),
                actor: crate::model::copy_opt(&n.actor),
                note: n.text.clone(),
            };
            let ghost before = r@;
            r.push(e);
            proof {
                assert(log_views(r@) =~= log_views(before).push(f(nv[i as int])));
                assert(nv.take(i as int).filter(p).push(nv[i as int]).map_values(f) =~= nv.take(i as int).filter(p).map_values(f).push(f(nv[i as int])));
            }
        }
        i += 1;
    }
    assert(nv.take(notes.len() as int) == nv);
    r
}

impl Farm {
    /// Timestamped notes across the filtered set, oldest first (then by id).
    /// `since`, when given, keeps only notes at or after the instant it names
    /// relative to `now` (a note whose timestamp cannot be read is kept);
    /// `by` keeps only notes stamped with that actor. `Err` when `since`
    /// cannot be read.
    pub fn log(&self, spec: FilterSpec, since: Option<&str>, now: (i64, u32), by: Option<&str>) -> (r: Result<Vec<LogEntry>, String>)
        ensures
            ({
                let tv = tviews(self.tasks@);
                let picked = tv.filter(|t: TaskView| spec.keeps(tv, t, spec.statuses@.contains(Status::Dead)));
                match since {
                    Some(s) => match since_spec(s@, now) {
                        None => r is Err,
                        Some(c) => r matches Ok(rows) && rows_sorted(log_views(rows@)) && log_views(
                            rows@,
                        ).to_multiset() == log_rows(picked, Some(c), ostr_ref(by), picked.len() as int).to_multiset(),
                    },
                    None => r matches Ok(rows) && rows_sorted(log_views(rows@)) && log_views(rows@).to_multiset()
                        == log_rows(picked, None, ostr_ref(by), picked.len() as int).to_multiset(),
                }
            }),
            (by is Some && r is Ok) ==> forall|i: int|
                0 <= i < r->Ok_0@.len() ==> ostr((#[trigger] r->Ok_0@[i]).actor) == Some(by->Some_0@),
    {
        let cut = match since {
            Some(s) => match parse_since(s, now) {
                Ok(c) => Some(c),
                Err(e) => return Err(e),
            },
            None => None,
        };
        let include_dead = has_dead(&spec.statuses);
        let picked = apply(&self.tasks, &spec, include_dead);
        let ghost pv = ref_views(picked@);
        let mut rows: Vec<LogEntry> = Vec::new();
        let mut i: usize = 0;
        while i < picked.len()
            invariant
                i <= picked.len(),
                pv == ref_views(picked@),
                log_views(rows@) == log_rows(pv, cut, ostr_ref(by), i as int),
            decreases picked.len() - i,
        {
            let more = rows_for(picked[i], cut, by);
            let mut more = more;
            let ghost a = log_views(rows@);
            let ghost b = log_views(more@);
            rows.append(&mut more);
            assert(log_views(rows@) =~= a + b);
            assert(pv[i as int] == picked@[i as int]@);
            i += 1;
        }
        let sorted = sort_rows(rows);
        proof {
            if by is Some {
                let w = by->Some_0@;
                let all = log_rows(pv, cut, ostr_ref(by), pv.len() as int);
                log_by_lists_only_that_actor(pv, cut, w, pv.len() as int);
                lemma_same_elems(log_views(sorted@), all);
                assert forall|i: int| 0 <= i < sorted@.len() implies ostr((#[trigger] sorted@[i]).actor) == Some(w) by {
                    assert(log_views(sorted@)[i] == log_view(sorted@[i]));
                    assert(log_views(sorted@).contains(log_views(sorted@)[i]));
                    let j = choose|j: int| 0 <= j < all.len() && all[j] == log_views(sorted@)[i];
                    assert(all[j].3 == Some(w));
                }
            }
        }
        Ok(sorted)
    }
}

} // verus!
