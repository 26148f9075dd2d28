//! Attachments: linking an artifact into its yak's body, and renaming one
//! together with every link to it.

use vstd::prelude::*;
use crate::text::{
    chars_of, string_of, push_all, push_str, slice, trim_end, trim_end_seq, eq, contains,
    contains_seq, first_from, lemma_first_from,
};
use crate::model::{TaskView, tviews};
use crate::refs::{replace, replace_seq};
use crate::store::layout::file_views;
use crate::farm::{Farm, ChangeView, changes_view};
use crate::farm::edit::{load_index, same_frame};
use crate::farm::names::{
    alphanumeric, name_char, is_alphanumeric, path_stem, path_stem_exec, attachment_name,
    attachment_name_spec,
};

verus! {

/// Result of attaching an artifact to a task.
pub enum AttachOutcome {
    Attached(String),
    NotFound,
}

/// The alt text of a link to `name`: its stem (`Path::file_stem`), or the
/// name itself when it has none.
pub open spec fn stem_or_name(name: Seq<char>) -> Seq<char> {
    match path_stem(name) {
        Some(s) => s,
        None => name,
    }
}

/// Where yak `id`'s artifact `name` lives, relative to the farm root.
pub open spec fn artifact_path(id: Seq<char>, name: Seq<char>) -> Seq<char> {
    "artifacts/"@ + id + "/"@ + name
}

/// The markdown image link `attach` writes: `![<stem>](artifacts/<id>/<name>)`.
pub open spec fn link_spec(id: Seq<char>, name: Seq<char>) -> Seq<char> {
    "!["@ + stem_or_name(name) + "]("@ + artifact_path(id, name) + ")"@
}

/// The body with the link appended after a blank line (directly, for an
/// empty body), trailing white space dropped first.
pub open spec fn with_link(body: Seq<char>, link: Seq<char>) -> Seq<char> {
    let b = trim_end_seq(body);
    b + (if b.len() > 0 {
        seq!['\n', '\n']
    } else {
        seq![]
    }) + link
}

pub open spec fn attached(t: TaskView, id: Seq<char>, name: Seq<char>, now: Seq<char>) -> TaskView {
    TaskView { body: with_link(t.body, link_spec(id, name)), updated: Some(now), ..t }
}

fn stem_of(name: &str) -> (r: Vec<char>)
    ensures
        r@ == stem_or_name(name@),
{
    let n = chars_of(name);
    match path_stem_exec(&n) {
        Some(s) => s,
        None => n,
    }
}

fn path_of(id: &str, name: &str) -> (r: Vec<char>)
    ensures
        r@ == artifact_path(id@, name@),
{
    let mut p = chars_of("artifacts/");
    push_str(&mut p, id);
    push_str(&mut p, "/");
    push_str(&mut p, name);
    p
}

fn link_of(id: &str, name: &str) -> (r: Vec<char>)
    ensures
        r@ == link_spec(id@, name@),
{
    let mut l = chars_of("![");
    push_all(&mut l, &stem_of(name));
    push_str(&mut l, "](");
    push_all(&mut l, &path_of(id, name));
    push_str(&mut l, ")");
    l
}

// ---------------------------------------------------------------------------
// rewriting links
// ---------------------------------------------------------------------------

pub open spec fn char_at(s: Seq<char>, k: int) -> Option<char> {
    if 0 <= k < s.len() {
        Some(s[k])
    } else {
        None
    }
}

/// A char that glues onto a path token from the left.
pub open spec fn glues_before(c: Option<char>) -> bool {
    c matches Some(b) && (alphanumeric(b) || b == '_' || b == '-')
}

/// The occurrence of a token of length `n` at `i` is part of a longer name:
/// a name char right before it, or a name char (a `.` only when another name
/// char follows) right after it.
pub open spec fn glued(s: Seq<char>, i: int, n: int, before: Option<char>) -> bool {
    ||| glues_before(before)
    ||| (char_at(s, i + n) matches Some(a) && name_char(a) && a != '.')
    ||| (char_at(s, i + n) == Some('.') && (char_at(s, i + n + 1) matches Some(c) && name_char(c)))
}

/// The char just before position `i`, scanning from `pos` after `prev`.
pub open spec fn before_at(s: Seq<char>, pos: int, i: int, prev: Option<char>) -> Option<char> {
    if i > pos {
        Some(s[i - 1])
    } else {
        prev
    }
}

pub open spec fn token_for(s: Seq<char>, i: int, old: Seq<char>, new: Seq<char>, before: Option<char>) -> Seq<char> {
    if glued(s, i, old.len() as int, before) {
        old
    } else {
        new
    }
}

pub open spec fn last_of(tok: Seq<char>, before: Option<char>) -> Option<char> {
    if tok.len() > 0 {
        Some(tok.last())
    } else {
        before
    }
}

/// `s` from `pos` with every free-standing occurrence of `old` replaced by
/// `new`; `prev` is the char written just before `pos`.
pub open spec fn path_token_from(s: Seq<char>, pos: int, old: Seq<char>, new: Seq<char>, prev: Option<char>) -> Seq<char>
    decreases s.len() - pos,
{
    if pos < 0 || pos > s.len() || old.len() == 0 {
        seq![]
    } else {
        match first_from(s, old, pos) {
            None => s.subrange(pos, s.len() as int),
            Some(i) => if i < pos || i + old.len() > s.len() {
                seq![]
            } else {
                let before = before_at(s, pos, i, prev);
                let tok = token_for(s, i, old, new, before);
                s.subrange(pos, i) + tok + path_token_from(s, i + old.len(), old, new, last_of(tok, before))
            },
        }
    }
}

proof fn lemma_token_step(s: Seq<char>, pos: int, old: Seq<char>, new: Seq<char>, prev: Option<char>, i: int)
    requires
        0 <= pos <= s.len(),
        old.len() > 0,
        first_from(s, old, pos) == Some(i),
    ensures
        pos <= i,
        i + old.len() <= s.len(),
        path_token_from(s, pos, old, new, prev) == s.subrange(pos, i) + token_for(
            s,
            i,
            old,
            new,
            before_at(s, pos, i, prev),
        ) + path_token_from(
            s,
            i + old.len(),
            old,
            new,
            last_of(token_for(s, i, old, new, before_at(s, pos, i, prev)), before_at(s, pos, i, prev)),
        ),
{
    lemma_first_from(s, old, pos);
}

/// Every occurrence of the path `old` in `text` that stands on its own (not
/// part of a longer file name) replaced by `new`.
pub open spec fn path_token_spec(text: Seq<char>, old: Seq<char>, new: Seq<char>) -> Seq<char> {
    path_token_from(text, 0, old, new, None)
}

fn name_char_exec(c: char) -> (b: bool)
    ensures
        b == name_char(c),
{
    is_alphanumeric(c) || c == '.' || c == '_' || c == '-' || c == '+'
}

fn glued_exec(s: &[char], i: usize, n: usize, before: Option<char>) -> (r: bool)
    requires
        i + n <= s.len(),
    ensures
        r == glued(s@, i as int, n as int, before),
{
    let e = i + n;
    let glue_b = match before {
        Some(b) => is_alphanumeric(b) || b == '_' || b == '-',
        None => false,
    };
    let glue_a = e < s.len() && name_char_exec(s[e]) && s[e] != '.';
    let glue_dot = e < s.len() && s[e] == '.' && e + 1 < s.len() && name_char_exec(s[e + 1]);
    glue_b || glue_a || glue_dot
}

pub fn replace_path_token(text: &str, old: &str, new: &str) -> (r: String)
    requires
        old@.len() > 0,
    ensures
        r@ == path_token_spec(text@, old@, new@),
{
    let s = chars_of(text);
    let o = chars_of(old);
    let n = chars_of(new);
    let mut out: Vec<char> = Vec::new();
    let mut pos: usize = 0;
    let mut prev: Option<char> = None;
    assert(out@ + path_token_from(s@, 0, o@, n@, None) =~= path_token_from(s@, 0, o@, n@, None));
    loop
        invariant
            s@ == text@,
            o@ == old@,
            n@ == new@,
            pos <= s.len(),
            o@.len() > 0,
            out@ + path_token_from(s@, pos as int, o@, n@, prev) == path_token_from(s@, 0, o@, n@, None),
        decreases s.len() - pos,
    {
        match crate::text::find_from(&s, &o, pos) {
            None => {
                let ghost before = out@;
                push_all(&mut out, &slice(&s, pos, s.len()));
                proof {
                    assert(path_token_from(s@, pos as int, o@, n@, prev) == s@.subrange(pos as int, s@.len() as int));
                    assert(out@ =~= before + s@.subrange(pos as int, s@.len() as int));
                }
                return string_of(&out);
            },
            Some(i) => {
                proof {
                    lemma_token_step(s@, pos as int, o@, n@, prev, i as int);
                }
                let before = if i > pos {
                    Some(s[i - 1])
                } else {
                    prev
                };
                let is_glued = glued_exec(&s, i, o.len(), before);
                let ghost base = out@;
                push_all(&mut out, &slice(&s, pos, i));
                let tok = if is_glued {
                    crate::text::copy_chars(&o)
                } else {
                    crate::text::copy_chars(&n)
                };
                push_all(&mut out, &tok);
                let last = if tok.len() > 0 {
                    Some(tok[tok.len() - 1])
                } else {
                    before
                };
                proof {
                    let rest = path_token_from(s@, i + o@.len(), o@, n@, last);
                    assert(tok@ == token_for(s@, i as int, o@, n@, before));
                    assert(last == last_of(tok@, before));
                    assert(out@ =~= base + s@.subrange(pos as int, i as int) + tok@);
                    assert(base + (s@.subrange(pos as int, i as int) + tok@ + rest) =~= out@ + rest);
                }
                prev = last;
                pos = i + o.len();
            },
        }
    }
}

// ---------------------------------------------------------------------------
// renaming
// ---------------------------------------------------------------------------

/// Result of renaming an attachment in `artifacts/<id>/`.
pub enum RenameAttachmentOutcome {
    /// Renamed to `name`; `rewritten` yak files had links to it updated.
    Renamed { name: String, rewritten: usize },
    /// No yak with that id.
    TaskNotFound,
    /// No such file under the yak's artifacts directory.
    NoSuchAttachment(String),
    /// The requested name sanitizes to nothing usable.
    Invalid(String),
    /// A different attachment already has the target name.
    Collision(String),
    /// The sanitized name equals the current one.
    Unchanged,
}

/// The two rewrites of a rename: the path, then the alt text of a link
/// whose alt was the old stem.
pub struct Relink {
    pub old_path: Seq<char>,
    pub new_path: Seq<char>,
    pub old_alt: Seq<char>,
    pub new_alt: Seq<char>,
}

pub open spec fn relink_of(id: Seq<char>, old: Seq<char>, name: Seq<char>) -> Relink {
    let new_path = artifact_path(id, name);
    Relink {
        old_path: artifact_path(id, old),
        new_path,
        old_alt: "!["@ + stem_or_name(old) + "]("@ + new_path + ")"@,
        new_alt: "!["@ + stem_or_name(name) + "]("@ + new_path + ")"@,
    }
}

pub open spec fn relinked_body(b: Seq<char>, r: Relink) -> Seq<char> {
    replace_seq(path_token_spec(b, r.old_path, r.new_path), r.old_alt, r.new_alt)
}

/// A yak whose body mentions the old path and changes under the rewrites.
pub open spec fn touched_by(t: TaskView, r: Relink) -> bool {
    contains_seq(t.body, r.old_path) && relinked_body(t.body, r) != t.body
}

pub open spec fn relinked(t: TaskView, r: Relink, now: Seq<char>) -> TaskView {
    if touched_by(t, r) {
        TaskView { body: relinked_body(t.body, r), updated: Some(now), ..t }
    } else {
        t
    }
}

pub open spec fn relink_saves(tv: Seq<TaskView>, r: Relink, now: Seq<char>) -> Seq<ChangeView> {
    tv.filter(|t: TaskView| touched_by(t, r)).map_values(|t: TaskView| ChangeView::Save(relinked(t, r, now)))
}

pub open spec fn ascii_lower(c: char) -> char {
    if 'A' <= c && c <= 'Z' {
        ((c as u32) + 32) as char
    } else {
        c
    }
}

/// `str::eq_ignore_ascii_case`.
pub open spec fn same_ignoring_ascii_case(a: Seq<char>, b: Seq<char>) -> bool {
    a.len() == b.len() && forall|i: int| 0 <= i < a.len() ==> ascii_lower(a[i]) == ascii_lower(b[i])
}

fn lower_exec(c: char) -> (r: char)
    ensures
        r == ascii_lower(c),
{
    if 'A' <= c && c <= 'Z' {
        ((c as u32) + 32) as u8 as char
    } else {
        c
    }
}

fn eq_ignore_ascii_case(a: &[char], b: &[char]) -> (r: bool)
    ensures
        r == same_ignoring_ascii_case(a@, b@),
{
    if a.len() != b.len() {
        return false;
    }
    let mut i: usize = 0;
    while i < a.len()
        invariant
            a.len() == b.len(),
            i <= a.len(),
            forall|j: int| 0 <= j < i ==> ascii_lower(a@[j]) == ascii_lower(b@[j]),
        decreases a.len() - i,
    {
        if lower_exec(a[i]) != lower_exec(b[i]) {
            return false;
        }
        i += 1;
    }
    true
}

fn has_name(v: &Vec<String>, n: &[char]) -> (b: bool)
    ensures
        b == crate::model::strs(v@).contains(n@),
{
    let mut i: usize = 0;
    while i < v.len()
        invariant
            i <= v.len(),
            forall|j: int| 0 <= j < i ==> v@[j]@ != n@,
        decreases v.len() - i,
    {
        if eq(&chars_of(v[i].as_str()), n) {
            assert(crate::model::strs(v@)[i as int] == n@);
            return true;
        }
        i += 1;
    }
    proof {
        if crate::model::strs(v@).contains(n@) {
            let k = choose|k: int| 0 <= k < crate::model::strs(v@).len() && crate::model::strs(v@)[k] == n@;
            assert(v@[k]@ == n@);
        }
    }
    false
}

/// A rename outcome, its texts as sequences.
pub enum RenameAttachmentView {
    Renamed(Seq<char>, nat),
    TaskNotFound,
    NoSuchAttachment(Seq<char>),
    Invalid(Seq<char>),
    Collision(Seq<char>),
    Unchanged,
}

pub open spec fn rename_attachment_view(o: RenameAttachmentOutcome) -> RenameAttachmentView {
    match o {
        RenameAttachmentOutcome::Renamed { name, rewritten } => RenameAttachmentView::Renamed(name@, rewritten as nat),
        RenameAttachmentOutcome::TaskNotFound => RenameAttachmentView::TaskNotFound,
        RenameAttachmentOutcome::NoSuchAttachment(n) => RenameAttachmentView::NoSuchAttachment(n@),
        RenameAttachmentOutcome::Invalid(n) => RenameAttachmentView::Invalid(n@),
        RenameAttachmentOutcome::Collision(n) => RenameAttachmentView::Collision(n@),
        RenameAttachmentOutcome::Unchanged => RenameAttachmentView::Unchanged,
    }
}

/// What a rename of attachment `old` to `new` comes to before any link is
/// rewritten: the refusal, or the sanitized target name. `present` names the
/// entries of the yak's artifacts directory.
pub open spec fn rename_check(
    found: bool,
    old: Seq<char>,
    new: Seq<char>,
    present: Seq<Seq<char>>,
) -> Result<Seq<char>, RenameAttachmentView> {
    if !found {
        Err(RenameAttachmentView::TaskNotFound)
    } else if old.contains('/') || old.contains('\\') || old.len() == 0 || !present.contains(old) {
        Err(RenameAttachmentView::NoSuchAttachment(old))
    } else {
        match attachment_name_spec(new, old) {
            None => Err(RenameAttachmentView::Invalid(new)),
            Some(name) => if name == old {
                Err(RenameAttachmentView::Unchanged)
            } else if present.contains(name) && !same_ignoring_ascii_case(name, old) {
                Err(RenameAttachmentView::Collision(name))
            } else {
                Ok(name)
            },
        }
    }
}

fn has_char(v: &[char], c: char) -> (b: bool)
    ensures
        b == v@.contains(c),
{
    let mut i: usize = 0;
    while i < v.len()
        invariant
            i <= v.len(),
            forall|j: int| 0 <= j < i ==> v@[j] != c,
        decreases v.len() - i,
    {
        if v[i] == c {
            return true;
        }
        i += 1;
    }
    false
}

impl Farm {
    /// Link an artifact already written to `artifacts/<id>/<name>` into the
    /// yak's body: a markdown image link after a blank line, `updated`
    /// bumped to `now`.
    pub fn attach(&mut self, id: &str, name: &str, now: &str) -> (r: AttachOutcome)
        requires
            old(self).wf(),
        ensures
            final(self).wf(),
            same_frame(*final(self), *old(self)),
            final(self).files@ == old(self).files@,
            match load_index(tviews(old(self).tasks@), file_views(old(self).files@), id@) {
                None => r is NotFound && final(self).tasks@ == old(self).tasks@ && final(self).changes@ == old(
                    self,
                ).changes@,
                Some(k) => {
                    let t = attached(tviews(old(self).tasks@)[k], id@, name@, now@);
                    &&& r matches AttachOutcome::Attached(n) && n@ == name@
                    &&& tviews(final(self).tasks@) == tviews(old(self).tasks@).update(k, t)
                    &&& changes_view(final(self).changes@) == changes_view(old(self).changes@).push(
                        ChangeView::Save(t),
                    )
                },
            },
    {
        let k = match self.task_index(id) {
            None => return AttachOutcome::NotFound,
            Some(k) => k,
        };
        let mut t = self.tasks[k].duplicate();
        let body = trim_end(&chars_of(t.body.as_str()));
        let mut nb = crate::text::copy_chars(&body);
        if body.len() > 0 {
            nb.push('\n');
            nb.push('\n');
        }
        push_all(&mut nb, &link_of(id, name));
        proof {
            let sep = if body@.len() > 0 {
                seq!['\n', '\n']
            } else {
                Seq::<char>::empty()
            };
            assert(nb@ =~= body@ + sep + link_spec(id@, name@));
        }
        t.body = string_of(&nb);
        t.updated = Some(crate::text::owned(now));
        let ghost tv = tviews(old(self).tasks@);
        assert(t@ == attached(tv[k as int], id@, name@, now@));
        self.store_task(k, t);
        AttachOutcome::Attached(crate::text::owned(name))
    }
}


fn alt_of(stem: &[char], path: &[char]) -> (r: Vec<char>)
    ensures
        r@ == "!["@ + stem@ + "]("@ + path@ + ")"@,
{
    let mut a = chars_of("![");
    push_all(&mut a, stem);
    push_str(&mut a, "](");
    push_all(&mut a, path);
    push_str(&mut a, ")");
    a
}

impl Farm {
    /// Rename yak `id`'s attachment `from` to the sanitized `to` (the old
    /// extension kept when `to` has none) and rewrite every link to it
    /// across the farm: free-standing `artifacts/<id>/<old>` path mentions,
    /// then the alt text of a link whose alt was the old stem. `present`
    /// names the entries of the yak's artifacts directory; an existing
    /// attachment is never clobbered. The caller renames the file itself on
    /// `Renamed`.
    pub fn rename_attachment(&mut self, id: &str, from: &str, to: &str, present: &Vec<String>, now: &str) -> (r:
        RenameAttachmentOutcome)
        requires
            old(self).wf(),
        ensures
            final(self).wf(),
            same_frame(*final(self), *old(self)),
            final(self).files@ == old(self).files@,
            match rename_check(
                load_index(tviews(old(self).tasks@), file_views(old(self).files@), id@) is Some,
                from@,
                to@,
                crate::model::strs(present@),
            ) {
                Err(v) => rename_attachment_view(r) == v && final(self).tasks@ == old(self).tasks@
                    && final(self).changes@ == old(self).changes@,
                Ok(name) => {
                    let rl = relink_of(id@, from@, name);
                    let tv = tviews(old(self).tasks@);
                    &&& rename_attachment_view(r) == RenameAttachmentView::Renamed(
                        name,
                        relink_saves(tv, rl, now@).len(),
                    )
                    &&& tviews(final(self).tasks@) == tv.map_values(|t: TaskView| relinked(t, rl, now@))
                    &&& changes_view(final(self).changes@) == changes_view(old(self).changes@) + relink_saves(
                        tv,
                        rl,
                        now@,
                    )
                },
            },
    {
        if self.task_index(id).is_none() {
            return RenameAttachmentOutcome::TaskNotFound;
        }
        let oc = chars_of(from);
        if has_char(&oc, '/') || has_char(&oc, '\\') || oc.len() == 0 || !has_name(present, &oc) {
            return RenameAttachmentOutcome::NoSuchAttachment(crate::text::owned(from));
        }
        let name = match attachment_name(to, from) {
            None => return RenameAttachmentOutcome::Invalid(crate::text::owned(to)),
            Some(n) => n,
        };
        let nc = chars_of(name.as_str());
        if eq(&nc, &oc) {
            return RenameAttachmentOutcome::Unchanged;
        }
        if has_name(present, &nc) && !eq_ignore_ascii_case(&nc, &oc) {
            return RenameAttachmentOutcome::Collision(name);
        }
        let old_path = path_of(id, from);
        let new_path = path_of(id, name.as_str());
        let old_alt = alt_of(&stem_of(from), &new_path);
        let new_alt = alt_of(&stem_of(name.as_str()), &new_path);
        let old_path_s = string_of(&old_path);
        let new_path_s = string_of(&new_path);
        let ghost rl = relink_of(id@, from@, name@);
        let ghost tv = tviews(self.tasks@);
        let ghost base = changes_view(self.changes@);
        let ghost f = |t: TaskView| relinked(t, rl, now@);
        let ghost p = |t: TaskView| touched_by(t, rl);
        let ghost g = |t: TaskView| ChangeView::Save(relinked(t, rl, now@));
        let mut count: usize = 0;
        let mut k: usize = 0;
        assert(tviews(self.tasks@) =~= tv.take(0).map_values(f) + tv.skip(0));
        assert(relink_saves(tv.take(0), rl, now@) =~= Seq::<ChangeView>::empty());
        assert(changes_view(self.changes@) =~= base + relink_saves(tv.take(0), rl, now@));
        while k < self.tasks.len()
            invariant
                self.wf(),
                same_frame(*self, *old(self)),
                self.files@ == old(self).files@,
                self.tasks@.len() == tv.len(),
                k <= tv.len(),
                rl == relink_of(id@, from@, name@),
                old_path@ == rl.old_path,
                new_path@ == rl.new_path,
                old_path_s@ == rl.old_path,
                new_path_s@ == rl.new_path,
                old_alt@ == rl.old_alt,
                new_alt@ == rl.new_alt,
                old_path@.len() > 0,
                old_alt@.len() > 0,
                f == (|t: TaskView| relinked(t, rl, now@)),
                p == (|t: TaskView| touched_by(t, rl)),
                g == (|t: TaskView| ChangeView::Save(relinked(t, rl, now@))),
                tviews(self.tasks@) == tv.take(k as int).map_values(f) + tv.skip(k as int),
                changes_view(self.changes@) == base + relink_saves(tv.take(k as int), rl, now@),
                count == relink_saves(tv.take(k as int), rl, now@).len(),
                count <= k,
            decreases tv.len() - k,
        {
            let ghost cur = tv[k as int];
            assert(tviews(self.tasks@)[k as int] == cur);
            let b = chars_of(self.tasks[k].body.as_str());
            let mut touched = false;
            if contains(&b, &old_path) {
                let p1 = replace_path_token(self.tasks[k].body.as_str(), old_path_s.as_str(), new_path_s.as_str());
                let nb = replace(&chars_of(p1.as_str()), &old_alt, &new_alt);
                if !eq(&nb, &b) {
                    touched = true;
                    let mut t = self.tasks[k].duplicate();
                    t.body = string_of(&nb);
                    t.updated = Some(crate::text::owned(now));
                    assert(t@ == relinked(cur, rl, now@));
                    self.store_task(k, t);
                }
            }
            proof {
                assert(touched == touched_by(cur, rl));
                let t1 = tv.take(k + 1);
                assert(t1 =~= tv.take(k as int).push(cur));
                tv.take(k as int).lemma_filter_push(cur, p);
                assert(t1.map_values(f) =~= tv.take(k as int).map_values(f).push(f(cur)));
                assert(tviews(self.tasks@) =~= t1.map_values(f) + tv.skip(k + 1));
                if touched {
                    assert(relink_saves(t1, rl, now@) =~= relink_saves(tv.take(k as int), rl, now@).push(g(cur)));
                } else {
                    assert(relink_saves(t1, rl, now@) =~= relink_saves(tv.take(k as int), rl, now@));
                }
            }
            if touched {
                count += 1;
            }
            k += 1;
        }
        assert(tv.take(tv.len() as int) =~= tv);
        assert(tv.skip(tv.len() as int) =~= Seq::<TaskView>::empty());
        assert(tviews(self.tasks@) =~= tv.map_values(f));
        RenameAttachmentOutcome::Renamed { name, rewritten: count }
    }
}
} // verus!
