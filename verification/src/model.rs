//! Core task model: a task's lifecycle status is implicit from the directory
//! its file lives in; parentage is a frontmatter field (flat, stable ids).

use vstd::prelude::*;
use crate::text::{is_ws, chars_of, string_of, slice, eq, whitespace};

verus! {

/// Lifecycle state, encoded by which directory a task file lives in.
#[derive(Debug, Clone, Copy, PartialEq, Eq, Structural)]
pub enum Status {
    Hairy,
    Shaving,
    Shorn,
    Dead,
}

/// The directory name of each status.
pub open spec fn status_dir(s: Status) -> Seq<char> {
    match s {
        Status::Hairy => seq!['h', 'a', 'i', 'r', 'y'],
        Status::Shaving => seq!['s', 'h', 'a', 'v', 'i', 'n', 'g'],
        Status::Shorn => seq!['s', 'h', 'o', 'r', 'n'],
        Status::Dead => seq!['d', 'e', 'a', 'd'],
    }
}

/// A dependency on a shorn or dead task counts as resolved.
pub open spec fn resolved_status(s: Status) -> bool {
    s == Status::Shorn || s == Status::Dead
}

impl Status {
    /// Directory name under `.yaks/` for this status.
    pub fn dir(self) -> (r: &'static str)
        ensures
            r@ == status_dir(self),
    {
        match self {
            Status::Hairy => {
                proof {
                    reveal_strlit("hairy");
                }
                "hairy"
            },
            Status::Shaving => {
                proof {
                    reveal_strlit("shaving");
                }
                "shaving"
            },
            Status::Shorn => {
                proof {
                    reveal_strlit("shorn");
                }
                "shorn"
            },
            Status::Dead => {
                proof {
                    reveal_strlit("dead");
                }
                "dead"
            },
        }
    }

    /// Compact single-character glyph for listings.
    pub fn glyph(self) -> (c: char)
        ensures
            c == status_glyph(self),
    {
        match self {
            Status::Hairy => 'H',
            Status::Shaving => 'S',
            Status::Shorn => 'N',
            Status::Dead => 'X',
        }
    }

    /// Status emoji (bison/razor/sheep/skull), one character each.
    pub fn emoji(self) -> (r: &'static str)
        ensures
            r@ == seq![status_emoji(self)],
    {
        match self {
            Status::Hairy => {
                proof {
                    reveal_strlit("\u{1f9ac}");
                }
                "\u{1f9ac}"
            },
            Status::Shaving => {
                proof {
                    reveal_strlit("\u{1fa92}");
                }
                "\u{1fa92}"
            },
            Status::Shorn => {
                proof {
                    reveal_strlit("\u{1f411}");
                }
                "\u{1f411}"
            },
            Status::Dead => {
                proof {
                    reveal_strlit("\u{1f480}");
                }
                "\u{1f480}"
            },
        }
    }

    /// A dependency counts as "resolved" once it is shorn or dead.
    pub fn is_resolved(self) -> (b: bool)
        ensures
            b == resolved_status(self),
    {
        match self {
            Status::Shorn | Status::Dead => true,
            _ => false,
        }
    }
}

/// The one-letter glyph of each status.
pub open spec fn status_glyph(s: Status) -> char {
    match s {
        Status::Hairy => 'H',
        Status::Shaving => 'S',
        Status::Shorn => 'N',
        Status::Dead => 'X',
    }
}

pub open spec fn status_emoji(s: Status) -> char {
    match s {
        Status::Hairy => '\u{1f9ac}',
        Status::Shaving => '\u{1fa92}',
        Status::Shorn => '\u{1f411}',
        Status::Dead => '\u{1f480}',
    }
}

/// A single task, parsed from a `.md` file with YAML frontmatter.
///
/// `created`/`updated` are kept as opaque ISO-8601 strings so a read/write
/// round-trip preserves them byte-for-byte.
#[derive(Debug, Clone, PartialEq, Eq)]
pub struct Task {
    pub id: String,
    pub title: String,
    pub kind: String,
    pub priority: u8,
    pub status: Status,
    pub created: Option<String>,
    pub updated: Option<String>,
    pub parent: Option<String>,
    pub labels: Vec<String>,
    pub depends_on: Vec<String>,
    pub source: Option<String>,
    /// A soft, external block: while set (e.g. `human`), the yak is not ready.
    pub needs: Option<String>,
    /// An optional rerunnable verification command.
    pub verify: Option<String>,
    /// Verbatim frontmatter lines this binary does not model, re-emitted on write.
    pub extra: Vec<String>,
    pub body: String,
}

/// The character sequences of a list of strings.
pub open spec fn strs(v: Seq<String>) -> Seq<Seq<char>> {
    v.map_values(|s: String| s@)
}

/// The character sequence of an optional string.
pub open spec fn ostr(o: Option<String>) -> Option<Seq<char>> {
    match o {
        Some(s) => Some(s@),
        None => None,
    }
}

/// A copy of `o`.
pub fn copy_opt(o: &Option<String>) -> (r: Option<String>)
    ensures
        r == *o,
{
    match o {
        Some(s) => Some(s.clone()),
        None => None,
    }
}

/// A copy of a list of strings.
pub fn copy_strings(v: &Vec<String>) -> (r: Vec<String>)
    ensures
        r@ == v@,
{
    let mut r: Vec<String> = Vec::new();
    let mut i: usize = 0;
    while i < v.len()
        invariant
            i <= v.len(),
            r@ == v@.take(i as int),
        decreases v.len() - i,
    {
        r.push(v[i].clone());
        assert(v@.take(i + 1) == v@.take(i as int).push(v@[i as int]));
        i += 1;
    }
    assert(v@.take(v.len() as int) == v@);
    r
}

/// The mathematical content of a task.
pub struct TaskView {
    pub id: Seq<char>,
    pub title: Seq<char>,
    pub kind: Seq<char>,
    pub priority: u8,
    pub status: Status,
    pub created: Option<Seq<char>>,
    pub updated: Option<Seq<char>>,
    pub parent: Option<Seq<char>>,
    pub labels: Seq<Seq<char>>,
    pub depends_on: Seq<Seq<char>>,
    pub source: Option<Seq<char>>,
    pub needs: Option<Seq<char>>,
    pub verify: Option<Seq<char>>,
    pub extra: Seq<Seq<char>>,
    pub body: Seq<char>,
}

impl View for Task {
    type V = TaskView;

    open spec fn view(&self) -> TaskView {
        TaskView {
            id: self.id@,
            title: self.title@,
            kind: self.kind@,
            priority: self.priority,
            status: self.status,
            created: ostr(self.created),
            updated: ostr(self.updated),
            parent: ostr(self.parent),
            labels: strs(self.labels@),
            depends_on: strs(self.depends_on@),
            source: ostr(self.source),
            needs: ostr(self.needs),
            verify: ostr(self.verify),
            extra: strs(self.extra@),
            body: self.body@,
        }
    }
}

/// The views of a list of tasks.
pub open spec fn tviews(v: Seq<Task>) -> Seq<TaskView> {
    v.map_values(|t: Task| t@)
}

impl Task {
    /// A field-for-field copy.
    pub fn duplicate(&self) -> (r: Task)
        ensures
            r@ == self@,
    {
        Task {
            id: self.id.clone(),
            title: self.title.clone(),
            kind: self.kind.clone(),
            priority: self.priority,
            status: self.status,
            created: copy_opt(&self.created),
            updated: copy_opt(&self.updated),
            parent: copy_opt(&self.parent),
            labels: copy_strings(&self.labels),
            depends_on: copy_strings(&self.depends_on),
            source: copy_opt(&self.source),
            needs: copy_opt(&self.needs),
            verify: copy_opt(&self.verify),
            extra: copy_strings(&self.extra),
            body: self.body.clone(),
        }
    }
}

// ---------------------------------------------------------------------------
// labels
// ---------------------------------------------------------------------------

/// A label may not contain a comma or white space.
pub open spec fn is_label_sep(c: char) -> bool {
    c == ',' || is_ws(c)
}

/// The first separator position in `s`, if any.
pub open spec fn first_sep(s: Seq<char>) -> Option<int>
    decreases s.len(),
{
    if s.len() == 0 {
        None
    } else if is_label_sep(s[0]) {
        Some(0)
    } else {
        match first_sep(s.drop_first()) {
            Some(i) => Some(i + 1),
            None => None,
        }
    }
}

/// The pieces of `s` between separators (empty pieces included).
pub open spec fn sep_pieces(s: Seq<char>) -> Seq<Seq<char>>
    decreases s.len(),
{
    match first_sep(s) {
        Some(i) => if 0 <= i < s.len() {
            seq![s.take(i)] + sep_pieces(s.skip(i + 1))
        } else {
            seq![s]
        },
        None => seq![s],
    }
}

/// The labels one raw input string yields: its non-empty pieces.
pub open spec fn label_tokens(s: Seq<char>) -> Seq<Seq<char>> {
    sep_pieces(s).filter(|p: Seq<char>| p.len() > 0)
}

/// Every label piece of every input, in order.
pub open spec fn all_tokens(raw: Seq<Seq<char>>) -> Seq<Seq<char>>
    decreases raw.len(),
{
    if raw.len() == 0 {
        seq![]
    } else {
        all_tokens(raw.drop_last()) + label_tokens(raw.last())
    }
}

/// The canonical labels of `raw`: pieces split on commas and white space,
/// empties dropped, duplicates removed (first occurrence wins).
pub open spec fn normalized(raw: Seq<Seq<char>>) -> Seq<Seq<char>> {
    all_tokens(raw).remove_duplicates(seq![])
}

pub open spec fn canonical(l: Seq<char>) -> bool {
    l.len() > 0 && forall|i: int| 0 <= i < l.len() ==> !is_label_sep(l[i])
}

proof fn lemma_first_sep(s: Seq<char>)
    ensures
        first_sep(s) matches Some(i) ==> 0 <= i < s.len() && is_label_sep(s[i]) && forall|j: int|
            0 <= j < i ==> !is_label_sep(s[j]),
        first_sep(s) is None ==> forall|j: int| 0 <= j < s.len() ==> !is_label_sep(s[j]),
    decreases s.len(),
{
    if s.len() > 0 && !is_label_sep(s[0]) {
        lemma_first_sep(s.drop_first());
        assert forall|j: int| 1 <= j < s.len() implies s[j] == s.drop_first()[j - 1] by {}
    }
}

proof fn lemma_first_sep_at(s: Seq<char>, i: int)
    requires
        0 <= i < s.len(),
        is_label_sep(s[i]),
        forall|j: int| 0 <= j < i ==> !is_label_sep(s[j]),
    ensures
        first_sep(s) == Some(i),
{
    lemma_first_sep(s);
    match first_sep(s) {
        Some(k) => {
            if k < i {
            } else if k > i {
            }
        },
        None => {},
    }
}

proof fn lemma_first_sep_none(s: Seq<char>)
    requires
        forall|j: int| 0 <= j < s.len() ==> !is_label_sep(s[j]),
    ensures
        first_sep(s) is None,
{
    lemma_first_sep(s);
}

/// The label pieces of one raw string, empties dropped.
fn tokens_of(s: &[char]) -> (r: Vec<Vec<char>>)
    ensures
        r@.map_values(|p: Vec<char>| p@) == label_tokens(s@),
{
    let mut out: Vec<Vec<char>> = Vec::new();
    let mut start: usize = 0;
    let mut i: usize = 0;
    let ghost f = |p: Seq<char>| p.len() > 0;
    assert(s@.skip(0) == s@);
    assert(out@.map_values(|p: Vec<char>| p@) =~= Seq::<Seq<char>>::empty());
    while i < s.len()
        invariant
            start <= i <= s.len(),
            f == (|p: Seq<char>| p.len() > 0),
            forall|j: int| start <= j < i ==> !is_label_sep(s@[j]),
            out@.map_values(|p: Vec<char>| p@) + sep_pieces(s@.skip(start as int)).filter(f)
                == sep_pieces(s@).filter(f),
        decreases s.len() - i,
    {
        if whitespace(s[i]) || s[i] == ',' {
            let piece = slice(s, start, i);
            proof {
                let rest = s@.skip(start as int);
                assert forall|j: int| 0 <= j < i - start implies !is_label_sep(rest[j]) by {
                    assert(rest[j] == s@[start + j]);
                }
                lemma_first_sep_at(rest, i - start);
                assert(rest.take(i - start) == piece@);
                assert(rest.skip(i - start + 1) == s@.skip(i + 1));
                assert(sep_pieces(rest) == seq![piece@] + sep_pieces(s@.skip(i + 1)));
                Seq::filter_distributes_over_add(seq![piece@], sep_pieces(s@.skip(i + 1)), f);
                reveal_with_fuel(Seq::filter, 2);
            }
            let ghost before = out@;
            if piece.len() > 0 {
                out.push(piece);
                proof {
                    assert(out@.map_values(|p: Vec<char>| p@) =~= before.map_values(|p: Vec<char>| p@) + seq![piece@]);
                    assert(seq![piece@].filter(f) =~= seq![piece@]);
                }
            } else {
                proof {
                    assert(seq![piece@].filter(f) =~= Seq::<Seq<char>>::empty());
                }
            }
            start = i + 1;
        }
        i += 1;
    }
    let piece = slice(s, start, s.len());
    proof {
        let rest = s@.skip(start as int);
        assert forall|j: int| 0 <= j < rest.len() implies !is_label_sep(rest[j]) by {
            assert(rest[j] == s@[start + j]);
        }
        lemma_first_sep_none(rest);
        assert(rest == piece@);
        reveal_with_fuel(Seq::filter, 2);
    }
    let ghost before = out@;
    if piece.len() > 0 {
        out.push(piece);
        proof {
            assert(out@.map_values(|p: Vec<char>| p@) =~= before.map_values(|p: Vec<char>| p@) + seq![piece@]);
            assert(seq![piece@].filter(f) =~= seq![piece@]);
        }
    } else {
        proof {
            assert(seq![piece@].filter(f) =~= Seq::<Seq<char>>::empty());
        }
    }
    proof {
        assert(sep_pieces(piece@) == seq![piece@]);
    }
    out
}

/// Whether `v` holds a label equal to `l`.
fn has_label(v: &Vec<String>, l: &[char]) -> (b: bool)
    ensures
        b == strs(v@).contains(l@),
{
    let mut i: usize = 0;
    while i < v.len()
        invariant
            i <= v.len(),
            forall|j: int| 0 <= j < i ==> v@[j]@ != l@,
        decreases v.len() - i,
    {
        let c = chars_of(v[i].as_str());
        if eq(&c, l) {
            assert(strs(v@)[i as int] == l@);
            return true;
        }
        i += 1;
    }
    proof {
        if strs(v@).contains(l@) {
            let k = choose|k: int| 0 <= k < strs(v@).len() && strs(v@)[k] == l@;
            assert(v@[k]@ == l@);
        }
    }
    false
}

/// Split raw label input into canonical labels: each input string is split on
/// commas and white space, empty pieces are dropped, and duplicates removed
/// (first occurrence wins). `foo, bar`, `foo bar`, and `foo,bar` all yield
/// `[foo, bar]`.
pub fn normalize_labels(raw: &[String]) -> (out: Vec<String>)
    ensures
        strs(out@) == normalized(strs(raw@)),
{
    let mut out: Vec<String> = Vec::new();
    let mut k: usize = 0;
    assert(strs(raw@).take(0) =~= Seq::<Seq<char>>::empty());
    assert(strs(out@) =~= Seq::<Seq<char>>::empty());
    while k < raw.len()
        invariant
            k <= raw.len(),
            strs(out@) == all_tokens(strs(raw@).take(k as int)).remove_duplicates(seq![]),
        decreases raw.len() - k,
    {
        let cs = chars_of(raw[k].as_str());
        let toks = tokens_of(&cs);
        let ghost done = all_tokens(strs(raw@).take(k as int));
        let mut t: usize = 0;
        proof {
            let tk = toks@.map_values(|p: Vec<char>| p@);
            assert(tk.take(0) =~= Seq::<Seq<char>>::empty());
            assert(done + tk.take(0) == done);
        }
        while t < toks.len()
            invariant
                t <= toks.len(),
                strs(out@) == (done + toks@.map_values(|p: Vec<char>| p@).take(t as int)).remove_duplicates(seq![]),
            decreases toks.len() - t,
        {
            let ghost tk = toks@.map_values(|p: Vec<char>| p@);
            let ghost pre = done + tk.take(t as int);
            proof {
                assert(done + tk.take(t + 1) =~= pre + seq![tk[t as int]]);
                pre.lemma_remove_duplicates_append(tk[t as int], seq![]);
                pre.lemma_remove_duplicates_properties(seq![]);
                assert(pre + Seq::<Seq<char>>::empty() =~= pre);
            }
            if !has_label(&out, &toks[t]) {
                let ghost before = out@;
                out.push(string_of(&toks[t]));
                proof {
                    assert(strs(out@) =~= strs(before) + seq![tk[t as int]]);
                }
            }
            t += 1;
        }
        proof {
            let tk = toks@.map_values(|p: Vec<char>| p@);
            assert(tk.take(toks.len() as int) == tk);
            assert(strs(raw@).take(k + 1).drop_last() == strs(raw@).take(k as int));
            assert(strs(raw@).take(k + 1).last() == cs@);
        }
        k += 1;
    }
    assert(strs(raw@).take(raw.len() as int) == strs(raw@));
    out
}

/// Whether `label` is already canonical: non-empty, no comma, no white space.
pub fn is_canonical_label(label: &str) -> (b: bool)
    ensures
        b == canonical(label@),
{
    let v = chars_of(label);
    if v.len() == 0 {
        return false;
    }
    let mut i: usize = 0;
    while i < v.len()
        invariant
            i <= v.len(),
            v@ == label@,
            forall|j: int| 0 <= j < i ==> !is_label_sep(v@[j]),
        decreases v.len() - i,
    {
        if v[i] == ',' || whitespace(v[i]) {
            assert(is_label_sep(label@[i as int]));
            return false;
        }
        i += 1;
    }
    true
}


/// The (add, remove) pair an edit of labels `cur` to the normalized `new`
/// carries; see [`label_edit`].
pub open spec fn label_edit_spec(cur: Seq<Seq<char>>, new: Seq<Seq<char>>) -> Option<
    (Seq<Seq<char>>, Seq<Seq<char>>),
> {
    if cur == new {
        None
    } else {
        let cn = normalized(cur);
        let add = new.filter(|l: Seq<char>| !cn.contains(l));
        let rem = cn.filter(|l: Seq<char>| !new.contains(l));
        if add.len() == 0 && rem.len() == 0 {
            if cn == new {
                Some((new, seq![]))
            } else {
                None
            }
        } else {
            Some((add, rem))
        }
    }
}

/// The labels of `v` that are not in `other`, in order.
fn labels_not_in(v: &Vec<String>, other: &Vec<String>) -> (r: Vec<String>)
    ensures
        strs(r@) == strs(v@).filter(|l: Seq<char>| !strs(other@).contains(l)),
{
    let ghost p = |l: Seq<char>| !strs(other@).contains(l);
    let mut r: Vec<String> = Vec::new();
    let mut i: usize = 0;
    assert(strs(v@).take(0).filter(p) =~= Seq::<Seq<char>>::empty());
    while i < v.len()
        invariant
            i <= v.len(),
            p == (|l: Seq<char>| !strs(other@).contains(l)),
            strs(r@) == strs(v@).take(i as int).filter(p),
        decreases v.len() - i,
    {
        let c = chars_of(v[i].as_str());
        let inside = has_label(other, &c);
        proof {
            assert(strs(v@).take(i + 1) == strs(v@).take(i as int).push(c@));
            strs(v@).take(i as int).lemma_filter_push(c@, p);
        }
        if !inside {
            let ghost before = r@;
            r.push(v[i].clone());
            assert(strs(r@) =~= strs(before).push(c@));
        }
        i += 1;
    }
    assert(strs(v@).take(v.len() as int) == strs(v@));
    r
}

fn same_labels(a: &Vec<String>, b: &Vec<String>) -> (r: bool)
    ensures
        r == (strs(a@) == strs(b@)),
{
    if a.len() != b.len() {
        return false;
    }
    let mut i: usize = 0;
    while i < a.len()
        invariant
            a.len() == b.len(),
            i <= a.len(),
            forall|j: int| 0 <= j < i ==> a@[j]@ == b@[j]@,
        decreases a.len() - i,
    {
        if a[i] != b[i] {
            assert(strs(a@)[i as int] != strs(b@)[i as int]);
            return false;
        }
        i += 1;
    }
    assert(strs(a@) =~= strs(b@));
    true
}

/// Diff an edited label list against a task's current labels, as the
/// (add, remove) pair an edit carries. `new` must already be normalized.
/// Compares against the normalized current labels; `None` when nothing
/// changes; when only legacy spelling differs, `new` is returned as the add
/// set so the edit re-writes the labels canonically.
pub fn label_edit(cur: &Vec<String>, new: &Vec<String>) -> (r: Option<(Vec<String>, Vec<String>)>)
    ensures
        match r {
            None => label_edit_spec(strs(cur@), strs(new@)) is None,
            Some((a, d)) => label_edit_spec(strs(cur@), strs(new@)) == Some(
                (strs(a@), strs(d@)),
            ),
        },
{
    if same_labels(cur, new) {
        return None;
    }
    let cur_n = normalize_labels(cur.as_slice());
    let add = labels_not_in(new, &cur_n);
    let remove = labels_not_in(&cur_n, new);
    if add.len() == 0 && remove.len() == 0 {
        if same_labels(&cur_n, new) {
            let empty: Vec<String> = Vec::new();
            assert(strs(empty@) =~= Seq::<Seq<char>>::empty());
            return Some((copy_strings(new), empty));
        }
        return None;
    }
    Some((add, remove))
}

// ---------------------------------------------------------------------------
// idempotence of normalization
// ---------------------------------------------------------------------------

proof fn lemma_sep_pieces_sep_free(s: Seq<char>)
    ensures
        forall|k: int, j: int|
            0 <= k < sep_pieces(s).len() && 0 <= j < sep_pieces(s)[k].len() ==> !is_label_sep(
                #[trigger] sep_pieces(s)[k][j],
            ),
    decreases s.len(),
{
    lemma_first_sep(s);
    match first_sep(s) {
        Some(i) => {
            lemma_sep_pieces_sep_free(s.skip(i + 1));
            let rest = sep_pieces(s.skip(i + 1));
            assert forall|k: int, j: int|
                0 <= k < sep_pieces(s).len() && 0 <= j < sep_pieces(s)[k].len() implies !is_label_sep(
                #[trigger] sep_pieces(s)[k][j],
            ) by {
                if k > 0 {
                    assert(sep_pieces(s)[k] == rest[k - 1]);
                }
            }
        },
        None => {},
    }
}

proof fn lemma_tokens_canonical(s: Seq<char>)
    ensures
        forall|k: int| 0 <= k < label_tokens(s).len() ==> canonical(#[trigger] label_tokens(s)[k]),
{
    let f = |p: Seq<char>| p.len() > 0;
    lemma_sep_pieces_sep_free(s);
    assert forall|k: int| 0 <= k < label_tokens(s).len() implies canonical(
        #[trigger] label_tokens(s)[k],
    ) by {
        sep_pieces(s).filter_lemma(f);
        let x = label_tokens(s)[k];
        assert(sep_pieces(s).filter(f).contains(x));
        sep_pieces(s).lemma_filter_contains_rev(f, x);
        let m = choose|m: int| 0 <= m < sep_pieces(s).len() && sep_pieces(s)[m] == x;
        assert forall|j: int| 0 <= j < x.len() implies !is_label_sep(x[j]) by {
            assert(!is_label_sep(sep_pieces(s)[m][j]));
        }
    }
}

proof fn lemma_all_tokens_canonical(raw: Seq<Seq<char>>)
    ensures
        forall|k: int| 0 <= k < all_tokens(raw).len() ==> canonical(#[trigger] all_tokens(raw)[k]),
    decreases raw.len(),
{
    if raw.len() > 0 {
        lemma_all_tokens_canonical(raw.drop_last());
        lemma_tokens_canonical(raw.last());
        let a = all_tokens(raw.drop_last());
        let b = label_tokens(raw.last());
        assert forall|k: int| 0 <= k < all_tokens(raw).len() implies canonical(
            #[trigger] all_tokens(raw)[k],
        ) by {
            if k < a.len() {
                assert(all_tokens(raw)[k] == a[k]);
            } else {
                assert(all_tokens(raw)[k] == b[k - a.len()]);
            }
        }
    }
}

proof fn lemma_canonical_tokens(l: Seq<char>)
    requires
        canonical(l),
    ensures
        label_tokens(l) == seq![l],
{
    lemma_first_sep_none(l);
    assert(sep_pieces(l) == seq![l]);
    reveal_with_fuel(Seq::filter, 2);
    assert(seq![l].filter(|p: Seq<char>| p.len() > 0) =~= seq![l]);
}

proof fn lemma_all_tokens_of_canonical(ls: Seq<Seq<char>>)
    requires
        forall|k: int| 0 <= k < ls.len() ==> canonical(#[trigger] ls[k]),
    ensures
        all_tokens(ls) == ls,
    decreases ls.len(),
{
    if ls.len() > 0 {
        lemma_all_tokens_of_canonical(ls.drop_last());
        lemma_canonical_tokens(ls.last());
        assert(ls.drop_last() + seq![ls.last()] =~= ls);
    }
}

proof fn lemma_rd_no_dup(s: Seq<Seq<char>>, seen: Seq<Seq<char>>)
    requires
        seen.no_duplicates(),
    ensures
        s.remove_duplicates(seen).no_duplicates(),
        s.no_duplicates() && s.disjoint(seen) ==> s.remove_duplicates(seen) == seen + s,
    decreases s.len(),
{
    if s.len() > 0 {
        let seen2 = seen + seq![s[0]];
        if !seen.contains(s[0]) {
            assert(seen2.no_duplicates()) by {
                assert forall|i: int, j: int|
                    0 <= i < seen2.len() && 0 <= j < seen2.len() && i != j implies seen2[i]
                    != seen2[j] by {
                    if i == seen.len() {
                        assert(seen.contains(seen2[j]) || j == i);
                    }
                    if j == seen.len() {
                        assert(seen.contains(seen2[i]) || j == i);
                    }
                }
            }
            lemma_rd_no_dup(s.skip(1), seen2);
            if s.no_duplicates() && s.disjoint(seen) {
                assert(s.skip(1).no_duplicates());
                assert(s.skip(1).disjoint(seen2)) by {
                    assert forall|i: int, j: int|
                        0 <= i < s.skip(1).len() && 0 <= j < seen2.len() implies s.skip(1)[i]
                        != seen2[j] by {
                        assert(s.skip(1)[i] == s[i + 1]);
                        if j == seen.len() {
                            assert(seen2[j] == s[0]);
                        }
                    }
                }
                assert(seen2 + s.skip(1) =~= seen + s);
            }
        } else {
            lemma_rd_no_dup(s.skip(1), seen);
            if s.no_duplicates() && s.disjoint(seen) {
                let k = choose|k: int| 0 <= k < seen.len() && seen[k] == s[0];
                assert(false);
            }
        }
    } else {
        assert(seen + s =~= seen);
    }
}

/// Normalized labels are canonical pieces (non-empty, free of commas and
/// white space), each once, and normalizing them again changes nothing.
pub proof fn normalize_labels_idempotent(raw: Seq<Seq<char>>)
    ensures
        forall|k: int| 0 <= k < normalized(raw).len() ==> canonical(#[trigger] normalized(raw)[k]),
        normalized(raw).no_duplicates(),
        normalized(normalized(raw)) == normalized(raw),
{
    let n = normalized(raw);
    let t = all_tokens(raw);
    lemma_all_tokens_canonical(raw);
    t.lemma_remove_duplicates_properties(seq![]);
    assert(t + Seq::<Seq<char>>::empty() =~= t);
    assert forall|k: int| 0 <= k < n.len() implies canonical(#[trigger] n[k]) by {
        assert(n.contains(n[k]));
        assert(t.contains(n[k]));
        let m = choose|m: int| 0 <= m < t.len() && t[m] == n[k];
        assert(canonical(t[m]));
    }
    lemma_all_tokens_of_canonical(n);
    lemma_rd_no_dup(t, seq![]);
    lemma_rd_no_dup(n, seq![]);
    assert(Seq::<Seq<char>>::empty() + n =~= n);
}

} // verus!
