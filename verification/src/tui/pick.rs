//! What a picker key does to the farm: the state, priority, type and herd
//! pickers of the terminal UI, and the bulk state picker over marked yaks.
//! Each returns the notification the UI shows, or `None` when the key picks
//! nothing.

use vstd::prelude::*;
use crate::text::{chars_of, string_of, push_str, push_all, same};
use crate::model::{Status, Task, TaskView, tviews};
use crate::farm::{Farm, ChangeView, changes_view};
use crate::farm::edit::same_frame;
use crate::farm::moves::move_result;
use crate::farm::query::{index_from, find_index, lemma_index_from};
use crate::farm::edit::{TaskEdit, UpdateOutcome, load_index, edited, edit_changes};
use crate::farm::rename::{RenameOutcome, renamed_as};
use crate::text::is_digit;
use crate::store::layout::{file_views, MoveOutcome};
use crate::store::write::{dec, dec_spec};

verus! {

/// The status a state-picker key names: `h`airy, `s`having, shor`n`, or
/// `x` for dead.
pub open spec fn pick_status_spec(c: char) -> Option<Status> {
    if c == 'h' {
        Some(Status::Hairy)
    } else if c == 's' {
        Some(Status::Shaving)
    } else if c == 'n' {
        Some(Status::Shorn)
    } else if c == 'x' {
        Some(Status::Dead)
    } else {
        None
    }
}

pub fn pick_status(c: char) -> (r: Option<Status>)
    ensures
        r == pick_status_spec(c),
{
    if c == 'h' {
        Some(Status::Hairy)
    } else if c == 's' {
        Some(Status::Shaving)
    } else if c == 'n' {
        Some(Status::Shorn)
    } else if c == 'x' {
        Some(Status::Dead)
    } else {
        None
    }
}

/// A status as the UI words it.
pub open spec fn status_word_spec(s: Status) -> Seq<char> {
    match s {
        Status::Hairy => "hairy"@,
        Status::Shaving => "shaving"@,
        Status::Shorn => "shorn"@,
        Status::Dead => "dead"@,
    }
}

fn status_word(s: Status) -> (r: &'static str)
    ensures
        r@ == status_word_spec(s),
{
    match s {
        Status::Hairy => "hairy",
        Status::Shaving => "shaving",
        Status::Shorn => "shorn",
        Status::Dead => "dead",
    }
}

/// The live (not dead) children of `id`.
pub open spec fn live_children(tv: Seq<TaskView>, id: Seq<char>) -> nat {
    tv.filter(|t: TaskView| t.parent == Some(id) && t.status != Status::Dead).len()
}

/// How many live children `id` has among `tasks`.
pub fn live_child_count(tasks: &Vec<Task>, id: &str) -> (n: usize)
    ensures
        n == live_children(tviews(tasks@), id@),
{
    let ghost tv = tviews(tasks@);
    let ghost p = |t: TaskView| t.parent == Some(id@) && t.status != Status::Dead;
    let mut n: usize = 0;
    let mut i: usize = 0;
    assert(tv.take(0).filter(p) =~= Seq::<TaskView>::empty());
    while i < tasks.len()
        invariant
            i <= tasks.len(),
            tv == tviews(tasks@),
            p == (|t: TaskView| t.parent == Some(id@) && t.status != Status::Dead),
            n == tv.take(i as int).filter(p).len(),
            n <= i,
        decreases tasks.len() - i,
    {
        let t = &tasks[i];
        proof {
            assert(tv[i as int] == t@);
            assert(tv.take(i + 1) == tv.take(i as int).push(t@));
            tv.take(i as int).lemma_filter_push(t@, p);
        }
        let child = match &t.parent {
            Some(x) => same(x.as_str(), id),
            None => false,
        };
        if child && t.status != Status::Dead {
            n += 1;
        }
        i += 1;
    }
    assert(tv.take(tasks.len() as int) == tv);
    n
}

/// The marked ids a bulk move to `dest` takes: all of them, but for a
/// move to dead only those without live children.
pub open spec fn bulk_targets(tv: Seq<TaskView>, ids: Seq<Seq<char>>, dest: Status) -> Seq<Seq<char>> {
    if dest == Status::Dead {
        ids.filter(|i: Seq<char>| live_children(tv, i) == 0)
    } else {
        ids
    }
}

/// Moving each of `ids` to `dest` in turn: how many moved, how many failed
/// (a task file that does not parse), and the tasks, files and writes after.
pub open spec fn bulk_moves(
    tv: Seq<TaskView>,
    fv: Seq<(Seq<char>, Status)>,
    ids: Seq<Seq<char>>,
    dest: Status,
    now: Seq<char>,
) -> (nat, nat, Seq<TaskView>, Seq<(Seq<char>, Status)>, Seq<ChangeView>)
    decreases ids.len(),
{
    if ids.len() == 0 {
        (0, 0, tv, fv, seq![])
    } else {
        match move_result(tv, fv, ids[0], dest, now) {
            None => {
                let r = bulk_moves(tv, fv, ids.drop_first(), dest, now);
                (r.0, r.1 + 1, r.2, r.3, r.4)
            },
            Some(m) => {
                let r = bulk_moves(m.1, m.2, ids.drop_first(), dest, now);
                (if m.0 == MoveOutcome::Moved {
                    r.0 + 1
                } else {
                    r.0
                }, r.1, r.2, r.3, m.3 + r.4)
            },
        }
    }
}

/// `<moved>/<total> → <status>`, then ` (<failed> failed)` when some
/// failed, then ` · <skipped> skipped: have children` when some were.
pub open spec fn bulk_message(moved: nat, total: nat, failed: nat, skipped: nat, dest: Status) -> Seq<char> {
    dec_spec(moved) + "/"@ + dec_spec(total) + " \u{2192} "@ + status_word_spec(dest) + (if failed > 0 {
        " ("@ + dec_spec(failed) + " failed)"@
    } else {
        seq![]
    }) + (if skipped > 0 {
        " \u{b7} "@ + dec_spec(skipped) + " skipped: have children"@
    } else {
        seq![]
    })
}

pub open spec fn strs(v: Seq<String>) -> Seq<Seq<char>> {
    v.map_values(|s: String| s@)
}

/// The farm is as it was.
pub open spec fn unchanged(before: Farm, after: Farm) -> bool {
    after.tasks@ == before.tasks@ && after.files@ == before.files@ && after.changes@
        == before.changes@
}

/// What the bulk state picker does with key `c` over the marked `ids`.
pub open spec fn bulk_pick_done(before: Farm, after: Farm, ids: Seq<Seq<char>>, c: char, now: Seq<char>, r: Option<Seq<char>>) -> bool {
    match pick_status_spec(c) {
        None => r is None && unchanged(before, after),
        Some(dest) => {
            let tv = tviews(before.tasks@);
            let targets = bulk_targets(tv, ids, dest);
            let res = bulk_moves(tv, file_views(before.files@), targets, dest, now);
            &&& r == Some(bulk_message(res.0, ids.len(), res.1, (ids.len() - targets.len()) as nat, dest))
            &&& tviews(after.tasks@) == res.2
            &&& file_views(after.files@) == res.3
            &&& changes_view(after.changes@) == changes_view(before.changes@) + res.4
        },
    }
}

fn num(n: usize) -> (r: Vec<char>)
    ensures
        r@ == dec_spec(n as nat),
{
    dec(n as u64)
}

fn bulk_message_exec(moved: usize, total: usize, failed: usize, skipped: usize, dest: Status) -> (r: String)
    ensures
        r@ == bulk_message(moved as nat, total as nat, failed as nat, skipped as nat, dest),
{
    let mut m = num(moved);
    push_str(&mut m, "/");
    push_all(&mut m, &num(total));
    push_str(&mut m, " \u{2192} ");
    push_str(&mut m, status_word(dest));
    let ghost a = m@;
    if failed > 0 {
        push_str(&mut m, " (");
        push_all(&mut m, &num(failed));
        push_str(&mut m, " failed)");
    }
    let ghost b = m@;
    if skipped > 0 {
        push_str(&mut m, " \u{b7} ");
        push_all(&mut m, &num(skipped));
        push_str(&mut m, " skipped: have children");
    }
    assert(m@ =~= bulk_message(moved as nat, total as nat, failed as nat, skipped as nat, dest));
    string_of(&m)
}

/// The bulk state picker: move every marked yak to the status key `c`
/// names. For a move to dead, marked yaks with live children are skipped
/// (they would be orphaned) and counted in the notification.
pub fn pick_bulk_state(farm: &mut Farm, ids: &Vec<String>, c: char, now: &str) -> (r: Option<String>)
    requires
        old(farm).wf(),
    ensures
        final(farm).wf(),
        same_frame(*final(farm), *old(farm)),
        bulk_pick_done(*old(farm), *final(farm), strs(ids@), c, now@, match r {
            Some(s) => Some(s@),
            None => None,
        }),
{
    let dest = match pick_status(c) {
        Some(d) => d,
        None => return None,
    };
    let ghost tv = tviews(farm.tasks@);
    let ghost iv = strs(ids@);
    let ghost keep = |i: Seq<char>| live_children(tv, i) == 0;
    // the targets, in order
    let mut targets: Vec<String> = Vec::new();
    let mut k: usize = 0;
    assert(iv.take(0).filter(keep) =~= Seq::<Seq<char>>::empty());
    assert(strs(targets@) =~= Seq::<Seq<char>>::empty());
    while k < ids.len()
        invariant
            k <= ids.len(),
            tv == tviews(farm.tasks@),
            iv == strs(ids@),
            keep == (|i: Seq<char>| live_children(tv, i) == 0),
            dest == Status::Dead ==> strs(targets@) == iv.take(k as int).filter(keep),
            dest != Status::Dead ==> strs(targets@) == iv.take(k as int),
            targets@.len() <= k,
        decreases ids.len() - k,
    {
        let ghost before = strs(targets@);
        proof {
            assert(iv[k as int] == ids@[k as int]@);
            assert(iv.take(k + 1) == iv.take(k as int).push(iv[k as int]));
            iv.take(k as int).lemma_filter_push(iv[k as int], keep);
        }
        if dest != Status::Dead || live_child_count(&farm.tasks, ids[k].as_str()) == 0 {
            targets.push(crate::text::owned(ids[k].as_str()));
            assert(strs(targets@) =~= before.push(iv[k as int]));
        }
        k += 1;
    }
    assert(iv.take(ids.len() as int) =~= iv);
    assert(strs(targets@) == bulk_targets(tv, iv, dest));
    let skipped = ids.len() - targets.len();
    // the moves, in order
    let ghost fv0 = file_views(farm.files@);
    let ghost ch0 = changes_view(farm.changes@);
    let ghost tg = strs(targets@);
    let mut moved: usize = 0;
    let mut failed: usize = 0;
    let mut j: usize = 0;
    assert(tg.skip(0) =~= tg);
    while j < targets.len()
        invariant
            j <= targets.len(),
            tg == strs(targets@),
            farm.wf(),
            same_frame(*farm, *old(farm)),
            moved + failed <= j,
            ({
                let all = bulk_moves(tv, fv0, tg, dest, now@);
                let rest = bulk_moves(tviews(farm.tasks@), file_views(farm.files@), tg.skip(j as int), dest, now@);
                &&& all.0 == moved + rest.0
                &&& all.1 == failed + rest.1
                &&& all.2 == rest.2
                &&& all.3 == rest.3
                &&& ch0 + all.4 == changes_view(farm.changes@) + rest.4
            }),
        decreases targets.len() - j,
    {
        let ghost t0 = tviews(farm.tasks@);
        let ghost f0 = file_views(farm.files@);
        let ghost c0 = changes_view(farm.changes@);
        proof {
            assert(tg.skip(j as int)[0] == tg[j as int]);
            assert(tg.skip(j as int).drop_first() =~= tg.skip(j + 1));
            assert(tg[j as int] == targets@[j as int]@);
        }
        match farm.transition(targets[j].as_str(), dest, now) {
            Ok(MoveOutcome::Moved) => {
                moved += 1;
            },
            Ok(_) => {},
            Err(_) => {
                failed += 1;
            },
        }
        proof {
            let m = move_result(t0, f0, tg[j as int], dest, now@);
            if m is Some {
                let mm = m->0;
                assert(c0 + mm.3 + bulk_moves(mm.1, mm.2, tg.skip(j + 1), dest, now@).4 =~= c0 + (mm.3 + bulk_moves(mm.1, mm.2, tg.skip(j + 1), dest, now@).4));
            }
        }
        j += 1;
    }
    proof {
        assert(tg.skip(targets.len() as int) =~= Seq::<Seq<char>>::empty());
        let all = bulk_moves(tv, fv0, tg, dest, now@);
        assert(changes_view(farm.changes@) + Seq::<ChangeView>::empty() =~= changes_view(farm.changes@));
    }
    Some(bulk_message_exec(moved, ids.len(), failed, skipped, dest))
}

// ---------------------------------------------------------------------------
// one yak
// ---------------------------------------------------------------------------

/// The first loaded task with id `id`, as the UI looks it up.
pub open spec fn task_of(tv: Seq<TaskView>, id: Seq<char>) -> Option<TaskView> {
    match index_from(tv, id, 0) {
        Some(k) => Some(tv[k]),
        None => None,
    }
}

pub open spec fn state_message(m: MoveOutcome, id: Seq<char>, dest: Status) -> Seq<char> {
    match m {
        MoveOutcome::Moved => id + " \u{2192} "@ + status_word_spec(dest),
        MoveOutcome::AlreadyThere => id + " already "@ + status_word_spec(dest),
        MoveOutcome::NotFound => id + " not found"@,
    }
}

pub open spec fn is_error(r: Option<Seq<char>>) -> bool {
    r matches Some(m) && m.len() >= 7 && m.take(7) == "error: "@
}

/// What the state picker does with key `c` for yak `id`: nothing for a key
/// that names no status, a notice when the yak is already there, else the
/// move.
pub open spec fn state_pick_done(before: Farm, after: Farm, id: Seq<char>, c: char, now: Seq<char>, r: Option<Seq<char>>) -> bool {
    let tv = tviews(before.tasks@);
    match pick_status_spec(c) {
        None => r is None && unchanged(before, after),
        Some(dest) => if task_of(tv, id) matches Some(t) && t.status == dest {
            r == Some(id + " already "@ + status_word_spec(dest)) && unchanged(before, after)
        } else {
            match move_result(tv, file_views(before.files@), id, dest, now) {
                None => is_error(r) && unchanged(before, after),
                Some(m) => {
                    &&& r == Some(state_message(m.0, id, dest))
                    &&& tviews(after.tasks@) == m.1
                    &&& file_views(after.files@) == m.2
                    &&& changes_view(after.changes@) == changes_view(before.changes@) + m.3
                },
            }
        },
    }
}

fn cat(a: &str, b: &str) -> (r: Vec<char>)
    ensures
        r@ == a@ + b@,
{
    let mut v = chars_of(a);
    push_str(&mut v, b);
    v
}

/// The state picker for one yak.
pub fn pick_state(farm: &mut Farm, id: &str, c: char, now: &str) -> (r: Option<String>)
    requires
        old(farm).wf(),
    ensures
        final(farm).wf(),
        same_frame(*final(farm), *old(farm)),
        state_pick_done(*old(farm), *final(farm), id@, c, now@, match r {
            Some(s) => Some(s@),
            None => None,
        }),
{
    let dest = match pick_status(c) {
        Some(d) => d,
        None => return None,
    };
    let word = status_word(dest);
    match find_index(&farm.tasks, id) {
        Some(k) => {
            proof {
                lemma_index_from(tviews(farm.tasks@), id@, 0);
            }
            assert(tviews(farm.tasks@)[k as int] == farm.tasks@[k as int]@);
            if farm.tasks[k].status == dest {
                let mut m = cat(id, " already ");
                push_str(&mut m, word);
                return Some(string_of(&m));
            }
        },
        None => {},
    }
    match farm.transition(id, dest, now) {
        Ok(MoveOutcome::Moved) => {
            let mut m = cat(id, " \u{2192} ");
            push_str(&mut m, word);
            Some(string_of(&m))
        },
        Ok(MoveOutcome::AlreadyThere) => {
            let mut m = cat(id, " already ");
            push_str(&mut m, word);
            Some(string_of(&m))
        },
        Ok(MoveOutcome::NotFound) => Some(string_of(&cat(id, " not found"))),
        Err(e) => {
            let m = cat("error: ", e.as_str());
            proof {
                reveal_strlit("error: ");
                assert(m@.take(7) =~= "error: "@);
            }
            Some(string_of(&m))
        },
    }
}

/// An edit that sets only the priority.
pub open spec fn priority_edit(e: TaskEdit, p: u8) -> bool {
    &&& e.priority == Some(p)
    &&& e.title is None && e.kind is None && e.description is None
    &&& e.add_labels@.len() == 0 && e.remove_labels@.len() == 0
    &&& e.source is None && e.verify is None && e.note is None && e.actor is None
}

/// An edit that sets only the type.
pub open spec fn kind_edit(e: TaskEdit, kind: Seq<char>) -> bool {
    &&& e.kind matches Some(k) && k@ == kind
    &&& e.title is None && e.priority is None && e.description is None
    &&& e.add_labels@.len() == 0 && e.remove_labels@.len() == 0
    &&& e.source is None && e.verify is None && e.note is None && e.actor is None
}

/// What `Farm::update` does with `e` for `id`, and the outcome.
pub open spec fn updated_as(before: Farm, after: Farm, id: Seq<char>, e: TaskEdit, now: Seq<char>, u: UpdateOutcome) -> bool {
    &&& after.files@ == before.files@
    &&& match load_index(tviews(before.tasks@), file_views(before.files@), id) {
        None => u is NotFound && after.tasks@ == before.tasks@ && after.changes@ == before.changes@,
        Some(k) => {
            let t0 = tviews(before.tasks@)[k];
            let t = TaskView { updated: Some(now), ..edited(t0, e, now) };
            if edit_changes(t0, e) {
                &&& u is Updated
                &&& tviews(after.tasks@) == tviews(before.tasks@).update(k, t)
                &&& changes_view(after.changes@) == changes_view(before.changes@).push(ChangeView::Save(t))
            } else {
                &&& u is NoChanges
                &&& after.tasks@ == before.tasks@
                &&& after.changes@ == before.changes@
            }
        },
    }
}

/// The notice for an edit's outcome, `ok` when it was applied.
pub open spec fn update_message(u: UpdateOutcome, id: Seq<char>, ok: Seq<char>) -> Seq<char> {
    match u {
        UpdateOutcome::Updated => ok,
        UpdateOutcome::NoChanges => id + " unchanged"@,
        UpdateOutcome::NotFound => id + " not found"@,
    }
}

/// The priority a digit key names.
pub open spec fn pick_priority_spec(c: char) -> Option<u8> {
    if is_digit(c) {
        Some((c as int - '0' as int) as u8)
    } else {
        None
    }
}

/// What the priority picker does with key `c` for yak `id`.
pub open spec fn priority_pick_done(before: Farm, after: Farm, id: Seq<char>, c: char, now: Seq<char>, r: Option<Seq<char>>) -> bool {
    match pick_priority_spec(c) {
        None => r is None && unchanged(before, after),
        Some(p) => if task_of(tviews(before.tasks@), id) matches Some(t) && t.priority == p {
            r == Some(id + " already p"@ + dec_spec(p as nat)) && unchanged(before, after)
        } else {
            exists|e: TaskEdit, u: UpdateOutcome|
                priority_edit(e, p) && #[trigger] updated_as(before, after, id, e, now, u) && r == Some(
                    update_message(u, id, id + " \u{2192} p"@ + dec_spec(p as nat)),
                )
        },
    }
}

fn update_notice(u: UpdateOutcome, id: &str, ok: Vec<char>) -> (r: String)
    ensures
        r@ == update_message(u, id@, ok@),
{
    match u {
        UpdateOutcome::Updated => string_of(&ok),
        UpdateOutcome::NoChanges => string_of(&cat(id, " unchanged")),
        UpdateOutcome::NotFound => string_of(&cat(id, " not found")),
    }
}

/// The priority picker for one yak.
pub fn pick_priority(farm: &mut Farm, id: &str, c: char, now: &str) -> (r: Option<String>)
    requires
        old(farm).wf(),
    ensures
        final(farm).wf(),
        same_frame(*final(farm), *old(farm)),
        priority_pick_done(*old(farm), *final(farm), id@, c, now@, match r {
            Some(s) => Some(s@),
            None => None,
        }),
{
    if !crate::text::digit(c) {
        return None;
    }
    let p: u8 = (c as u32 - '0' as u32) as u8;
    assert(pick_priority_spec(c) == Some(p));
    let mut ok = cat(id, " \u{2192} p");
    push_all(&mut ok, &num(p as usize));
    match find_index(&farm.tasks, id) {
        Some(k) => {
            proof {
                lemma_index_from(tviews(farm.tasks@), id@, 0);
            }
            assert(tviews(farm.tasks@)[k as int] == farm.tasks@[k as int]@);
            if farm.tasks[k].priority == p {
                let mut m = cat(id, " already p");
                push_all(&mut m, &num(p as usize));
                return Some(string_of(&m));
            }
        },
        None => {},
    }
    let mut e = TaskEdit::default();
    e.priority = Some(p);
    let ghost e0 = e;
    let u = farm.update(id, e, now);
    let ghost uu = u;
    let r = update_notice(u, id, ok);
    assert(priority_edit(e0, p) && updated_as(*old(farm), *farm, id@, e0, now@, uu));
    Some(r)
}

/// The type a type-picker key names: `t`ask, `b`ug, `f`eature, `i`dea.
pub open spec fn pick_kind_spec(c: char) -> Option<Seq<char>> {
    if c == 't' {
        Some("task"@)
    } else if c == 'b' {
        Some("bug"@)
    } else if c == 'f' {
        Some("feature"@)
    } else if c == 'i' {
        Some("idea"@)
    } else {
        None
    }
}

fn pick_kind(c: char) -> (r: Option<&'static str>)
    ensures
        match r {
            Some(k) => pick_kind_spec(c) == Some(k@),
            None => pick_kind_spec(c) is None,
        },
{
    if c == 't' {
        Some("task")
    } else if c == 'b' {
        Some("bug")
    } else if c == 'f' {
        Some("feature")
    } else if c == 'i' {
        Some("idea")
    } else {
        None
    }
}

/// What the type picker does with key `c` for yak `id`.
pub open spec fn type_pick_done(before: Farm, after: Farm, id: Seq<char>, c: char, now: Seq<char>, r: Option<Seq<char>>) -> bool {
    match pick_kind_spec(c) {
        None => r is None && unchanged(before, after),
        Some(kind) => if task_of(tviews(before.tasks@), id) matches Some(t) && t.kind == kind {
            r == Some(id + " already "@ + kind) && unchanged(before, after)
        } else {
            exists|e: TaskEdit, u: UpdateOutcome|
                kind_edit(e, kind) && #[trigger] updated_as(before, after, id, e, now, u) && r == Some(
                    update_message(u, id, id + " \u{2192} "@ + kind),
                )
        },
    }
}

/// The type picker for one yak.
pub fn pick_type(farm: &mut Farm, id: &str, c: char, now: &str) -> (r: Option<String>)
    requires
        old(farm).wf(),
    ensures
        final(farm).wf(),
        same_frame(*final(farm), *old(farm)),
        type_pick_done(*old(farm), *final(farm), id@, c, now@, match r {
            Some(s) => Some(s@),
            None => None,
        }),
{
    let kind = match pick_kind(c) {
        Some(k) => k,
        None => return None,
    };
    match find_index(&farm.tasks, id) {
        Some(k) => {
            proof {
                lemma_index_from(tviews(farm.tasks@), id@, 0);
            }
            assert(tviews(farm.tasks@)[k as int] == farm.tasks@[k as int]@);
            if same(farm.tasks[k].kind.as_str(), kind) {
                let mut m = cat(id, " already ");
                push_str(&mut m, kind);
                return Some(string_of(&m));
            }
        },
        None => {},
    }
    let ok = cat(id, " \u{2192} ");
    let mut ok2 = ok;
    push_str(&mut ok2, kind);
    let mut e = TaskEdit::default();
    e.kind = Some(crate::text::owned(kind));
    let ghost e0 = e;
    let u = farm.update(id, e, now);
    let ghost uu = u;
    let r = update_notice(u, id, ok2);
    assert(kind_edit(e0, kind@) && updated_as(*old(farm), *farm, id@, e0, now@, uu));
    Some(r)
}

/// The notice for a herd move's rename outcome.
pub open spec fn rename_message(ro: RenameOutcome, id: Seq<char>, dest: Seq<char>) -> Seq<char> {
    match ro {
        RenameOutcome::Done(_) => "moved to "@ + dest,
        RenameOutcome::Collision(t) => t@ + " already exists in "@ + dest,
        RenameOutcome::NotFound(t) => t@ + " not found"@,
        RenameOutcome::Invalid(t) => "invalid id "@ + t@,
        RenameOutcome::NothingToRename => id + " unchanged"@,
    }
}

/// The herd a digit key names among `herds`, counting from 1.
pub open spec fn pick_herd_spec(herds: Seq<Seq<char>>, c: char) -> Option<Seq<char>> {
    if is_digit(c) && 1 <= c as int - '0' as int <= herds.len() {
        Some(herds[c as int - '0' as int - 1])
    } else {
        None
    }
}

/// What the herd picker does with key `c` for yak `id`: moving a yak to
/// another herd renames its id's prefix, keeping the part after the first
/// `-`.
pub open spec fn herd_pick_done(before: Farm, after: Farm, id: Seq<char>, herds: Seq<Seq<char>>, c: char, r: Option<Seq<char>>) -> bool {
    match pick_herd_spec(herds, c) {
        None => r is None && unchanged(before, after),
        Some(dest) => match crate::text::first_from(id, seq!['-'], 0) {
            None => r == Some(id + " has no herd"@) && unchanged(before, after),
            Some(i) => exists|ro: RenameOutcome|
                #[trigger] renamed_as(before, after, seq![(id, dest + seq!['-'] + id.skip(i + 1))], false, ro)
                    && r == Some(rename_message(ro, id, dest)),
        },
    }
}

fn rename_notice(ro: &RenameOutcome, id: &str, dest: &str) -> (r: String)
    ensures
        r@ == rename_message(*ro, id@, dest@),
{
    match ro {
        RenameOutcome::Done(_) => string_of(&cat("moved to ", dest)),
        RenameOutcome::Collision(t) => {
            let mut m = cat(t.as_str(), " already exists in ");
            push_str(&mut m, dest);
            string_of(&m)
        },
        RenameOutcome::NotFound(t) => string_of(&cat(t.as_str(), " not found")),
        RenameOutcome::Invalid(t) => string_of(&cat("invalid id ", t.as_str())),
        RenameOutcome::NothingToRename => string_of(&cat(id, " unchanged")),
    }
}

/// The herd picker for one yak, offering `herds`.
pub fn pick_herd(farm: &mut Farm, id: &str, herds: &Vec<String>, c: char) -> (r: Option<String>)
    requires
        old(farm).wf(),
    ensures
        final(farm).wf(),
        same_frame(*final(farm), *old(farm)),
        herd_pick_done(*old(farm), *final(farm), id@, strs(herds@), c, match r {
            Some(s) => Some(s@),
            None => None,
        }),
{
    if !crate::text::digit(c) {
        return None;
    }
    let d: usize = (c as u32 - '0' as u32) as usize;
    if d < 1 || d - 1 >= herds.len() {
        return None;
    }
    let dest = &herds[d - 1];
    assert(strs(herds@)[d - 1] == dest@);
    assert(pick_herd_spec(strs(herds@), c) == Some(dest@));
    let chars = chars_of(id);
    let mut dash: Vec<char> = Vec::new();
    dash.push('-');
    assert(dash@ =~= seq!['-']);
    let i = match crate::text::find(&chars, &dash) {
        Some(i) => i,
        None => return Some(string_of(&cat(id, " has no herd"))),
    };
    proof {
        crate::text::lemma_first_from(chars@, seq!['-'], 0);
        assert(crate::text::occurs_at(chars@, seq!['-'], i as int));
    }
    assert(i + 1 <= chars.len());
    let mut new_id = chars_of(dest.as_str());
    new_id.push('-');
    let tail = crate::text::slice(&chars, i + 1, chars.len());
    push_all(&mut new_id, &tail);
    assert(new_id@ =~= dest@ + seq!['-'] + id@.skip(i + 1));
    let nid = string_of(&new_id);
    let ro = farm.rename(id, nid.as_str(), false);
    let msg = rename_notice(&ro, id, dest.as_str());
    Some(msg)
}

// ---------------------------------------------------------------------------
// the pickers
// ---------------------------------------------------------------------------

/// What a picker was opened for.
pub enum PickAction {
    /// Set the status of every marked yak.
    BulkState(Vec<String>),
    State(String),
    Priority(String),
    Type(String),
    /// Move a yak to one of these herds.
    Herd(String, Vec<String>),
}

/// What a picker key does.
pub open spec fn pick_done(before: Farm, after: Farm, action: PickAction, c: char, now: Seq<char>, r: Option<Seq<char>>) -> bool {
    match action {
        PickAction::BulkState(ids) => bulk_pick_done(before, after, strs(ids@), c, now, r),
        PickAction::State(id) => state_pick_done(before, after, id@, c, now, r),
        PickAction::Priority(id) => priority_pick_done(before, after, id@, c, now, r),
        PickAction::Type(id) => type_pick_done(before, after, id@, c, now, r),
        PickAction::Herd(id, herds) => herd_pick_done(before, after, id@, strs(herds@), c, r),
    }
}

/// Resolve a picker key `c` against the farm: the notice the UI shows, or
/// `None` when the key picks nothing (and nothing changes).
pub fn resolve_pick(farm: &mut Farm, action: PickAction, c: char, now: &str) -> (r: Option<String>)
    requires
        old(farm).wf(),
    ensures
        final(farm).wf(),
        same_frame(*final(farm), *old(farm)),
        pick_done(*old(farm), *final(farm), action, c, now@, match r {
            Some(s) => Some(s@),
            None => None,
        }),
{
    match action {
        PickAction::BulkState(ids) => pick_bulk_state(farm, &ids, c, now),
        PickAction::State(id) => pick_state(farm, id.as_str(), c, now),
        PickAction::Priority(id) => pick_priority(farm, id.as_str(), c, now),
        PickAction::Type(id) => pick_type(farm, id.as_str(), c, now),
        PickAction::Herd(id, herds) => pick_herd(farm, id.as_str(), &herds, c),
    }
}

} // verus!
