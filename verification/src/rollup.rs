//! Rolling yaks up to the external issues they point at. A yak's `source:`
//! is its external home; a yak with no own `source:` inherits its nearest
//! ancestor's, resolved at query time.

use vstd::prelude::*;
use crate::text::{
    chars_of, string_of, same, eq, lt, seq_lt, lemma_lt_trans, lemma_lt_irrefl, trim, trim_seq,
    first_from, find, occurs_at, lemma_first_from, is_lower, is_upper, is_digit, slice, push_all,
    has_prefix, starts_with,
};
use crate::model::{Task, TaskView, tviews, ostr};
use crate::filter::{FilterSpec, apply};

verus! {

// ---------------------------------------------------------------------------
// trackers
// ---------------------------------------------------------------------------

/// The end of the run from `i` of chars `[A-Z0-9_]`.
pub open spec fn jira_end(s: Seq<char>, i: int) -> int
    decreases s.len() - i,
{
    if i < 0 || i >= s.len() || !(is_upper(s[i]) || is_digit(s[i]) || s[i] == '_') {
        i
    } else {
        jira_end(s, i + 1)
    }
}

/// The end of the run of ASCII digits from `i`.
pub open spec fn digits_end(s: Seq<char>, i: int) -> int
    decreases s.len() - i,
{
    if i < 0 || i >= s.len() || !is_digit(s[i]) {
        i
    } else {
        digits_end(s, i + 1)
    }
}

/// The end of the run of ASCII letters and digits from `i`.
pub open spec fn alnum_end(s: Seq<char>, i: int) -> int
    decreases s.len() - i,
{
    if i < 0 || i >= s.len() || !(is_lower(s[i]) || is_upper(s[i]) || is_digit(s[i])) {
        i
    } else {
        alnum_end(s, i + 1)
    }
}

/// ASCII white space as `u8::is_ascii_whitespace` has it.
pub open spec fn ascii_ws(c: char) -> bool {
    c == ' ' || c == '\t' || c == '\n' || c == '\u{c}' || c == '\r'
}

/// The end of a path segment from `i`: up to a `/` or ASCII white space.
pub open spec fn seg_end(s: Seq<char>, i: int) -> int
    decreases s.len() - i,
{
    if i < 0 || i >= s.len() || s[i] == '/' || ascii_ws(s[i]) {
        i
    } else {
        seg_end(s, i + 1)
    }
}

/// `atlassian.net/browse/KEY-123`: `[A-Z][A-Z0-9_]*-\d+`.
pub open spec fn jira_spec(s: Seq<char>) -> Option<Seq<char>> {
    match first_from(s, "atlassian.net/browse/"@, 0) {
        None => None,
        Some(idx) => {
            let rest = s.skip(idx + 21);
            if rest.len() == 0 || !is_upper(rest[0]) {
                None
            } else {
                let e = jira_end(rest, 1);
                if e < rest.len() && rest[e] == '-' {
                    let f = digits_end(rest, e + 1);
                    if f == e + 1 {
                        None
                    } else {
                        Some(rest.take(f))
                    }
                } else {
                    None
                }
            }
        },
    }
}

pub open spec fn ascii_upper(c: char) -> char {
    if is_lower(c) {
        ((c as u32 - 32) as u32) as char
    } else {
        c
    }
}

/// `linear.app/<team>/issue/key-5`: `[A-Za-z0-9]+-\d+`, upper-cased.
pub open spec fn linear_spec(s: Seq<char>) -> Option<Seq<char>> {
    match first_from(s, "linear.app/"@, 0) {
        None => None,
        Some(li) => {
            let after = s.skip(li);
            match first_from(after, "/issue/"@, 0) {
                None => None,
                Some(ii) => {
                    let rest = after.skip(ii + 7);
                    let i = alnum_end(rest, 0);
                    if i == 0 || !(i < rest.len() && rest[i] == '-') {
                        None
                    } else {
                        let f = digits_end(rest, i + 1);
                        if f == i + 1 {
                            None
                        } else {
                            Some(rest.take(f).map_values(|c: char| ascii_upper(c)))
                        }
                    }
                },
            }
        },
    }
}

/// `github.com/<owner>/<repo>/issues/123` as `owner/repo#123`.
pub open spec fn github_spec(s: Seq<char>) -> Option<Seq<char>> {
    match first_from(s, "github.com/"@, 0) {
        None => None,
        Some(gi) => {
            let rest = s.skip(gi + 11);
            let o = seg_end(rest, 0);
            if o == 0 || !(o < rest.len() && rest[o] == '/') {
                None
            } else {
                let r = seg_end(rest, o + 1);
                if r == o + 1 {
                    None
                } else {
                    let tail = rest.skip(r);
                    if !starts_with(tail, "/issues/"@) {
                        None
                    } else {
                        let j = digits_end(tail, 8);
                        if j == 8 {
                            None
                        } else {
                            Some(rest.take(o) + seq!['/'] + rest.subrange(o + 1, r) + seq!['#'] + tail.subrange(8, j))
                        }
                    }
                }
            }
        },
    }
}

/// The tracker and human key of a `source:` URL.
pub open spec fn tracker_spec(source: Seq<char>) -> (Seq<char>, Option<Seq<char>>) {
    let s = trim_seq(source);
    if s.len() == 0 {
        ("none"@, None)
    } else if jira_spec(s) is Some {
        ("jira"@, jira_spec(s))
    } else if linear_spec(s) is Some {
        ("linear"@, linear_spec(s))
    } else if github_spec(s) is Some {
        ("github"@, github_spec(s))
    } else {
        ("other"@, Some(s))
    }
}

fn find_lit(s: &[char], lit: &str) -> (r: Option<usize>)
    ensures
        match r {
            Some(i) => first_from(s@, lit@, 0) == Some(i as int) && i + lit@.len() <= s@.len(),
            None => first_from(s@, lit@, 0) is None,
        },
{
    let p = chars_of(lit);
    let r = find(s, &p);
    proof {
        lemma_first_from(s@, p@, 0);
    }
    match r {
        Some(i) => {
            assert(occurs_at(s@, p@, i as int));
            Some(i)
        },
        None => None,
    }
}

fn jira_end_exec(s: &[char], i: usize) -> (e: usize)
    requires
        i <= s.len(),
    ensures
        e == jira_end(s@, i as int),
        i <= e <= s.len(),
{
    let mut e = i;
    while e < s.len() && (('A' <= s[e] && s[e] <= 'Z') || ('0' <= s[e] && s[e] <= '9') || s[e] == '_')
        invariant
            i <= e <= s.len(),
            jira_end(s@, i as int) == jira_end(s@, e as int),
        decreases s.len() - e,
    {
        e += 1;
    }
    e
}

fn digits_end_exec(s: &[char], i: usize) -> (e: usize)
    requires
        i <= s.len(),
    ensures
        e == digits_end(s@, i as int),
        i <= e <= s.len(),
{
    let mut e = i;
    while e < s.len() && ('0' <= s[e] && s[e] <= '9')
        invariant
            i <= e <= s.len(),
            digits_end(s@, i as int) == digits_end(s@, e as int),
        decreases s.len() - e,
    {
        e += 1;
    }
    e
}

fn alnum_end_exec(s: &[char], i: usize) -> (e: usize)
    requires
        i <= s.len(),
    ensures
        e == alnum_end(s@, i as int),
        i <= e <= s.len(),
{
    let mut e = i;
    while e < s.len() && (('a' <= s[e] && s[e] <= 'z') || ('A' <= s[e] && s[e] <= 'Z') || ('0' <= s[e] && s[e] <= '9'))
        invariant
            i <= e <= s.len(),
            alnum_end(s@, i as int) == alnum_end(s@, e as int),
        decreases s.len() - e,
    {
        e += 1;
    }
    e
}

fn seg_end_exec(s: &[char], i: usize) -> (e: usize)
    requires
        i <= s.len(),
    ensures
        e == seg_end(s@, i as int),
        i <= e <= s.len(),
{
    let mut e = i;
    while e < s.len() && !(s[e] == '/' || s[e] == ' ' || s[e] == '\t' || s[e] == '\n' || s[e] == '\u{c}' || s[e] == '\r')
        invariant
            i <= e <= s.len(),
            seg_end(s@, i as int) == seg_end(s@, e as int),
        decreases s.len() - e,
    {
        e += 1;
    }
    e
}

fn jira_key(s: &[char]) -> (r: Option<Vec<char>>)
    ensures
        match r {
            Some(k) => jira_spec(s@) == Some(k@),
            None => jira_spec(s@) is None,
        },
{
    proof {
        reveal_strlit("atlassian.net/browse/");
        assert("atlassian.net/browse/"@.len() == 21);
    }
    let idx = match find_lit(s, "atlassian.net/browse/") {
        Some(i) => i,
        None => return None,
    };
    let n = s.len();
    assert(idx + 21 <= s@.len()) by {
        assert("atlassian.net/browse/"@.len() == 21);
    }
    let rest = slice(s, idx + 21, s.len());
    assert(rest@ == s@.skip(idx + 21));
    if rest.len() == 0 || !('A' <= rest[0] && rest[0] <= 'Z') {
        return None;
    }
    let e = jira_end_exec(&rest, 1);
    if !(e < rest.len() && rest[e] == '-') {
        return None;
    }
    let f = digits_end_exec(&rest, e + 1);
    if f == e + 1 {
        return None;
    }
    Some(slice(&rest, 0, f))
}

fn upper_ascii(v: &[char]) -> (r: Vec<char>)
    ensures
        r@ == v@.map_values(|c: char| ascii_upper(c)),
{
    let mut r: Vec<char> = Vec::new();
    let mut i: usize = 0;
    while i < v.len()
        invariant
            i <= v.len(),
            r@ == v@.take(i as int).map_values(|c: char| ascii_upper(c)),
        decreases v.len() - i,
    {
        let c = v[i];
        let u = if 'a' <= c && c <= 'z' {
            (((c as u32) - 32) as u8) as char
        } else {
            c
        };
        assert(u == ascii_upper(c));
        r.push(u);
        assert(v@.take(i + 1) == v@.take(i as int).push(c));
        assert(r@ =~= v@.take(i + 1).map_values(|c: char| ascii_upper(c)));
        i += 1;
    }
    assert(v@.take(v.len() as int) == v@);
    r
}

fn linear_key(s: &[char]) -> (r: Option<Vec<char>>)
    ensures
        match r {
            Some(k) => linear_spec(s@) == Some(k@),
            None => linear_spec(s@) is None,
        },
{
    proof {
        reveal_strlit("linear.app/");
        reveal_strlit("/issue/");
    }
    let li = match find_lit(s, "linear.app/") {
        Some(i) => i,
        None => return None,
    };
    let after = slice(s, li, s.len());
    assert(after@ == s@.skip(li as int));
    let ii = match find_lit(&after, "/issue/") {
        Some(i) => i,
        None => return None,
    };
    let rest = slice(&after, ii + 7, after.len());
    assert(rest@ == after@.skip(ii + 7));
    let i = alnum_end_exec(&rest, 0);
    if i == 0 || !(i < rest.len() && rest[i] == '-') {
        return None;
    }
    let f = digits_end_exec(&rest, i + 1);
    if f == i + 1 {
        return None;
    }
    Some(upper_ascii(&slice(&rest, 0, f)))
}

fn github_key(s: &[char]) -> (r: Option<Vec<char>>)
    ensures
        match r {
            Some(k) => github_spec(s@) == Some(k@),
            None => github_spec(s@) is None,
        },
{
    proof {
        reveal_strlit("github.com/");
        reveal_strlit("/issues/");
        assert("github.com/"@.len() == 11);
    }
    let gi = match find_lit(s, "github.com/") {
        Some(i) => i,
        None => return None,
    };
    let n = s.len();
    assert(gi + 11 <= s@.len()) by {
        assert("github.com/"@.len() == 11);
    }
    let rest = slice(s, gi + 11, s.len());
    assert(rest@ == s@.skip(gi + 11));
    let o = seg_end_exec(&rest, 0);
    if o == 0 || !(o < rest.len() && rest[o] == '/') {
        return None;
    }
    let r = seg_end_exec(&rest, o + 1);
    if r == o + 1 {
        return None;
    }
    let tail = slice(&rest, r, rest.len());
    assert(tail@ == rest@.skip(r as int));
    if !has_prefix(&tail, &chars_of("/issues/")) {
        return None;
    }
    assert(tail@.len() >= 8);
    let j = digits_end_exec(&tail, 8);
    if j == 8 {
        return None;
    }
    let mut out = slice(&rest, 0, o);
    out.push('/');
    push_all(&mut out, &slice(&rest, o + 1, r));
    out.push('#');
    push_all(&mut out, &slice(&tail, 8, j));
    assert(rest@.take(o as int) == rest@.subrange(0, o as int));
    assert(out@ =~= rest@.take(o as int) + seq!['/'] + rest@.subrange(o + 1, r as int) + seq!['#'] + tail@.subrange(8, j as int));
    Some(out)
}

/// Classify a `source:` URL into (tracker, human key): a Jira, Linear or
/// GitHub issue's key, the trimmed URL itself for anything else, and no key
/// for an empty source.
pub fn tracker_and_key(source: &str) -> (r: (&'static str, Option<String>))
    ensures
        (r.0@, ostr(r.1)) == tracker_spec(source@),
{
    let s = trim(&chars_of(source));
    if s.len() == 0 {
        return ("none", None);
    }
    if let Some(k) = jira_key(&s) {
        return ("jira", Some(string_of(&k)));
    }
    if let Some(k) = linear_key(&s) {
        return ("linear", Some(string_of(&k)));
    }
    if let Some(k) = github_key(&s) {
        return ("github", Some(string_of(&k)));
    }
    ("other", Some(string_of(&s)))
}

// ---------------------------------------------------------------------------
// inheritance and grouping
// ---------------------------------------------------------------------------

/// The source the last task with id `id` that has one carries.
pub open spec fn source_of(tv: Seq<TaskView>, id: Seq<char>) -> Option<Seq<char>>
    decreases tv.len(),
{
    if tv.len() == 0 {
        None
    } else if tv.last().id == id && tv.last().source is Some {
        tv.last().source
    } else {
        source_of(tv.drop_last(), id)
    }
}

/// The parent the last task with id `id` that has one names.
pub open spec fn parent_of(tv: Seq<TaskView>, id: Seq<char>) -> Option<Seq<char>>
    decreases tv.len(),
{
    if tv.len() == 0 {
        None
    } else if tv.last().id == id && tv.last().parent is Some {
        tv.last().parent
    } else {
        parent_of(tv.drop_last(), id)
    }
}

/// Walking up from `cur` (ids in `seen` already passed): the first source
/// found and, when it is not `start`'s own, the ancestor it came from. A
/// cycle ends the walk with nothing; so does running out of `steps`.
pub open spec fn inherit(tv: Seq<TaskView>, cur: Seq<char>, start: Seq<char>, seen: Seq<Seq<char>>, steps: nat) -> (
    Option<Seq<char>>,
    Option<Seq<char>>,
)
    decreases steps,
{
    if seen.contains(cur) {
        (None, None)
    } else {
        match source_of(tv, cur) {
            Some(s) => (Some(s), if cur == start { None } else { Some(cur) }),
            None => match parent_of(tv, cur) {
                Some(p) => if steps == 0 {
                    (None, None)
                } else {
                    inherit(tv, p, start, seen.push(cur), (steps - 1) as nat)
                },
                None => (None, None),
            },
        }
    }
}

/// A yak's effective source and where it was inherited from.
pub open spec fn effective(tv: Seq<TaskView>, id: Seq<char>) -> (Option<Seq<char>>, Option<Seq<char>>) {
    inherit(tv, id, id, seq![], tv.len())
}

fn source_exec(tasks: &Vec<Task>, id: &[char]) -> (r: Option<String>)
    ensures
        ostr(r) == source_of(tviews(tasks@), id@),
{
    let ghost tv = tviews(tasks@);
    let mut i = tasks.len();
    assert(tv.take(tasks.len() as int) == tv);
    while i > 0
        invariant
            i <= tasks.len(),
            tv == tviews(tasks@),
            source_of(tv, id@) == source_of(tv.take(i as int), id@),
        decreases i,
    {
        let t = &tasks[i - 1];
        assert(tv.take(i as int).last() == t@);
        assert(tv.take(i as int).drop_last() == tv.take(i - 1));
        if t.source.is_some() && eq(&chars_of(t.id.as_str()), id) {
            return crate::model::copy_opt(&t.source);
        }
        i -= 1;
    }
    None
}

fn parent_exec(tasks: &Vec<Task>, id: &[char]) -> (r: Option<String>)
    ensures
        ostr(r) == parent_of(tviews(tasks@), id@),
{
    let ghost tv = tviews(tasks@);
    let mut i = tasks.len();
    assert(tv.take(tasks.len() as int) == tv);
    while i > 0
        invariant
            i <= tasks.len(),
            tv == tviews(tasks@),
            parent_of(tv, id@) == parent_of(tv.take(i as int), id@),
        decreases i,
    {
        let t = &tasks[i - 1];
        assert(tv.take(i as int).last() == t@);
        assert(tv.take(i as int).drop_last() == tv.take(i - 1));
        if t.parent.is_some() && eq(&chars_of(t.id.as_str()), id) {
            return crate::model::copy_opt(&t.parent);
        }
        i -= 1;
    }
    None
}

/// Resolve a yak's effective source by walking up the parent chain:
/// `(source, inherited_from)`, where `inherited_from` is `None` when the
/// yak carries its own source, else the ancestor it came from.
fn effective_source(tasks: &Vec<Task>, start: &String) -> (r: (Option<String>, Option<String>))
    ensures
        (ostr(r.0), ostr(r.1)) == effective(tviews(tasks@), start@),
{
    let ghost tv = tviews(tasks@);
    let mut cur = chars_of(start.as_str());
    let mut seen: Vec<Vec<char>> = Vec::new();
    let mut steps: usize = tasks.len();
    assert(seen@.map_values(|v: Vec<char>| v@) =~= Seq::<Seq<char>>::empty());
    loop
        invariant
            tv == tviews(tasks@),
            inherit(tv, cur@, start@, seen@.map_values(|v: Vec<char>| v@), steps as nat) == effective(tv, start@),
        decreases steps,
    {
        let ghost sv = seen@.map_values(|v: Vec<char>| v@);
        let mut k: usize = 0;
        let mut hit = false;
        while k < seen.len()
            invariant
                k <= seen.len(),
                sv == seen@.map_values(|v: Vec<char>| v@),
                hit == exists|m: int| 0 <= m < k && sv[m] == cur@,
            decreases seen.len() - k,
        {
            assert(sv[k as int] == seen@[k as int]@);
            if eq(&seen[k], &cur) {
                hit = true;
            }
            k += 1;
        }
        if hit {
            return (None, None);
        }
        match source_exec(tasks, &cur) {
            Some(s) => {
                let from = if eq(&cur, &chars_of(start.as_str())) {
                    None
                } else {
                    Some(string_of(&cur))
                };
                return (Some(s), from);
            },
            None => {},
        }
        match parent_exec(tasks, &cur) {
            Some(p) => {
                if steps == 0 {
                    return (None, None);
                }
                let ghost cv = cur@;
                seen.push(cur);
                assert(seen@.map_values(|v: Vec<char>| v@) =~= sv.push(cv));
                cur = chars_of(p.as_str());
                steps -= 1;
            },
            None => {
                return (None, None);
            },
        }
    }
}

/// One yak within a rollup group.
pub struct RollupItem {
    pub task: Task,
    pub inherited_from: Option<String>,
}

/// The yaks sharing one effective source.
pub struct Group {
    pub source: String,
    pub tracker: &'static str,
    pub key: Option<String>,
    pub yaks: Vec<RollupItem>,
}

pub open spec fn item_view(i: RollupItem) -> (TaskView, Option<Seq<char>>) {
    (i.task@, ostr(i.inherited_from))
}

pub open spec fn item_views(v: Seq<RollupItem>) -> Seq<(TaskView, Option<Seq<char>>)> {
    v.map_values(|i: RollupItem| item_view(i))
}

/// The display head: the human key, or the raw source when unclassified.
pub open spec fn head_spec(key: Option<Seq<char>>, source: Seq<char>) -> Seq<char> {
    match key {
        Some(k) => k,
        None => source,
    }
}

impl Group {
    /// Display head: the human key, or the raw source URL when unclassified.
    pub fn head(&self) -> (r: String)
        ensures
            r@ == head_spec(ostr(self.key), self.source@),
    {
        match &self.key {
            Some(k) => k.clone(),
            None => self.source.clone(),
        }
    }
}

/// The yaks of `ps` whose effective source (over `tv`) is `src`, each with
/// where it inherited from.
pub open spec fn members(tv: Seq<TaskView>, ps: Seq<TaskView>, src: Seq<char>) -> Seq<(TaskView, Option<Seq<char>>)> {
    ps.filter(|t: TaskView| effective(tv, t.id).0 == Some(src)).map_values(
        |t: TaskView| (t, effective(tv, t.id).1),
    )
}

/// How many of `ps` have no effective source.
pub open spec fn unsourced_count(tv: Seq<TaskView>, ps: Seq<TaskView>) -> nat {
    ps.filter(|t: TaskView| effective(tv, t.id).0 is None).len()
}

pub open spec fn items_sorted(s: Seq<(TaskView, Option<Seq<char>>)>) -> bool {
    forall|i: int, j: int| 0 <= i < j < s.len() ==> !seq_lt(#[trigger] s[j].0.id, #[trigger] s[i].0.id)
}

proof fn lemma_insert_sorted_items(prev: Seq<(TaskView, Option<Seq<char>>)>, k: int, xv: (TaskView, Option<Seq<char>>))
    requires
        items_sorted(prev),
        0 <= k <= prev.len(),
        forall|q: int| 0 <= q < k ==> !seq_lt(xv.0.id, prev[q].0.id),
        k < prev.len() ==> seq_lt(xv.0.id, prev[k].0.id),
    ensures
        items_sorted(prev.insert(k, xv)),
{
    let after = prev.insert(k, xv);
    assert forall|a: int, b: int| 0 <= a < b < after.len() implies !seq_lt(#[trigger] after[b].0.id, #[trigger] after[a].0.id) by {
        if a < k && b == k {
            assert(!seq_lt(xv.0.id, prev[a].0.id));
        } else if a == k && b > k {
            assert(after[b] == prev[b - 1]);
            if k < prev.len() {
                if b - 1 > k {
                    assert(!seq_lt(prev[b - 1].0.id, prev[k].0.id));
                }
                if seq_lt(prev[b - 1].0.id, xv.0.id) {
                    lemma_lt_trans(prev[b - 1].0.id, xv.0.id, prev[k].0.id);
                    lemma_lt_irrefl(prev[k].0.id);
                }
            }
        } else {
            let a2 = if a < k { a } else { a - 1 };
            let b2 = if b < k { b } else { b - 1 };
            assert(after[a] == prev[a2]);
            assert(after[b] == prev[b2]);
        }
    }
}

fn sort_items(v: Vec<RollupItem>) -> (r: Vec<RollupItem>)
    ensures
        items_sorted(item_views(r@)),
        item_views(r@).to_multiset() == item_views(v@).to_multiset(),
{
    let ghost orig = item_views(v@);
    let mut v = v;
    let mut r: Vec<RollupItem> = Vec::new();
    proof {
        broadcast use vstd::seq_lib::group_to_multiset_ensures;
        assert(orig.skip(0) == orig);
        assert(item_views(r@) =~= Seq::empty());
    }
    let n = v.len();
    while v.len() > 0
        invariant
            n == orig.len(),
            v.len() <= n,
            item_views(v@) == orig.skip(n - v.len()),
            items_sorted(item_views(r@)),
            item_views(r@).to_multiset() == orig.take(n - v.len()).to_multiset(),
        decreases v.len(),
    {
        let ghost m = n - v.len();
        let ghost before = item_views(v@);
        let x = v.remove(0);
        let ghost xv = item_view(x);
        proof {
            assert(before[0] == orig[m]);
            assert(item_views(v@) =~= before.drop_first());
            assert(before.drop_first() =~= orig.skip(m + 1));
        }
        let xc = chars_of(x.task.id.as_str());
        let mut k: usize = 0;
        while k < r.len() && !lt(&xc, &chars_of(r[k].task.id.as_str()))
            invariant
                k <= r.len(),
                xc@ == xv.0.id,
                forall|q: int| 0 <= q < k ==> !seq_lt(xv.0.id, item_views(r@)[q].0.id),
            decreases r.len() - k,
        {
            k += 1;
        }
        let ghost prev = item_views(r@);
        r.insert(k, x);
        proof {
            broadcast use vstd::seq_lib::group_to_multiset_ensures;
            let after = item_views(r@);
            assert(after =~= prev.insert(k as int, xv));
            prev.insert_ensures(k as int, xv);
            assert(after.remove(k as int) =~= prev);
            assert(after.contains(xv)) by {
                assert(after[k as int] == xv);
            }
            assert(after.to_multiset().remove(xv) == prev.to_multiset());
            assert(after.to_multiset() =~= prev.to_multiset().insert(xv));
            assert(orig.take(m + 1) == orig.take(m).push(xv));
            lemma_insert_sorted_items(prev, k as int, xv);
        }
    }
    assert(orig.take(n as int) == orig);
    r
}

/// A group, as its parts.
pub open spec fn group_head(g: Group) -> Seq<char> {
    head_spec(ostr(g.key), g.source@)
}

pub open spec fn groups_sorted(gs: Seq<Group>) -> bool {
    forall|i: int, j: int| 0 <= i < j < gs.len() ==> !seq_lt(group_head(#[trigger] gs[j]), group_head(#[trigger] gs[i]))
}

pub open spec fn sources_distinct(gs: Seq<Group>) -> bool {
    forall|a: int, b: int| 0 <= a < b < gs.len() ==> #[trigger] gs[a].source@ != #[trigger] gs[b].source@
}

fn sort_groups(v: Vec<Group>) -> (r: Vec<Group>)
    requires
        sources_distinct(v@),
    ensures
        groups_sorted(r@),
        sources_distinct(r@),
        r@.to_multiset() == v@.to_multiset(),
{
    let ghost orig = v@;
    let mut v = v;
    let mut r: Vec<Group> = Vec::new();
    proof {
        broadcast use vstd::seq_lib::group_to_multiset_ensures;
        assert(orig.skip(0) == orig);
    }
    let n = v.len();
    while v.len() > 0
        invariant
            n == orig.len(),
            v.len() <= n,
            v@ == orig.skip(n - v.len()),
            groups_sorted(r@),
            sources_distinct(r@),
            sources_distinct(v@),
            forall|a: int, q: int| 0 <= a < r@.len() && 0 <= q < v@.len() ==> #[trigger] r@[a].source@ != #[trigger] v@[q].source@,
            r@.to_multiset() == orig.take(n - v.len()).to_multiset(),
        decreases v.len(),
    {
        let ghost m = n - v.len();
        let ghost before = v@;
        let ghost prev_r = r@;
        let x = v.remove(0);
        proof {
            assert(before[0] == orig[m]);
            assert(v@ =~= orig.skip(m + 1));
            assert forall|a: int| 0 <= a < prev_r.len() implies #[trigger] prev_r[a].source@ != x.source@ by {
                assert(before[0] == x);
            }
            assert forall|q: int| 0 <= q < v@.len() implies #[trigger] v@[q].source@ != x.source@ by {
                assert(v@[q] == before[q + 1]);
                assert(before[0] == x);
            }
            assert forall|a: int, q: int| 0 <= a < prev_r.len() && 0 <= q < v@.len() implies #[trigger] prev_r[a].source@ != #[trigger] v@[q].source@ by {
                assert(v@[q] == before[q + 1]);
            }
            assert forall|a: int, b: int| 0 <= a < b < v@.len() implies #[trigger] v@[a].source@ != #[trigger] v@[b].source@ by {
                assert(v@[a] == before[a + 1]);
                assert(v@[b] == before[b + 1]);
            }
        }
        let xh = x.head();
        let xc = chars_of(xh.as_str());
        let mut k: usize = 0;
        while k < r.len() && !lt(&xc, &chars_of(r[k].head().as_str()))
            invariant
                k <= r.len(),
                xc@ == group_head(x),
                forall|q: int| 0 <= q < k ==> !seq_lt(group_head(x), group_head(r@[q])),
            decreases r.len() - k,
        {
            k += 1;
        }
        let ghost prev = r@;
        let ghost xg = x;
        r.insert(k, x);
        proof {
            broadcast use vstd::seq_lib::group_to_multiset_ensures;
            let after = r@;
            assert(after == prev.insert(k as int, xg));
            prev.insert_ensures(k as int, xg);
            assert(after.remove(k as int) =~= prev);
            assert(after.contains(xg)) by {
                assert(after[k as int] == xg);
            }
            assert(after.to_multiset().remove(xg) == prev.to_multiset());
            assert(after.to_multiset() =~= prev.to_multiset().insert(xg));
            assert(orig.take(m + 1) == orig.take(m).push(xg));
            assert forall|a: int, b: int| 0 <= a < b < after.len() implies #[trigger] after[a].source@ != #[trigger] after[b].source@ by {
                let a2 = if a < k { a } else { a - 1 };
                let b2 = if b < k { b } else { b - 1 };
                if a != k && b != k {
                    assert(after[a] == prev[a2]);
                    assert(after[b] == prev[b2]);
                } else if a == k {
                    assert(after[b] == prev[b2]);
                } else {
                    assert(after[a] == prev[a2]);
                }
            }
            assert forall|a: int, q: int| 0 <= a < after.len() && 0 <= q < v@.len() implies #[trigger] after[a].source@ != #[trigger] v@[q].source@ by {
                if a < k {
                    assert(after[a] == prev[a]);
                } else if a > k {
                    assert(after[a] == prev[a - 1]);
                }
            }
            assert forall|a: int, b: int| 0 <= a < b < after.len() implies !seq_lt(group_head(#[trigger] after[b]), group_head(#[trigger] after[a])) by {
                if a < k && b == k {
                    assert(!seq_lt(group_head(xg), group_head(prev[a])));
                } else if a == k && b > k {
                    assert(after[b] == prev[b - 1]);
                    if k < prev.len() {
                        assert(seq_lt(group_head(xg), group_head(prev[k as int])));
                        if b - 1 > k {
                            assert(!seq_lt(group_head(prev[b - 1]), group_head(prev[k as int])));
                        }
                        if seq_lt(group_head(prev[b - 1]), group_head(xg)) {
                            lemma_lt_trans(group_head(prev[b - 1]), group_head(xg), group_head(prev[k as int]));
                            lemma_lt_irrefl(group_head(prev[k as int]));
                        }
                    }
                } else {
                    let a2 = if a < k { a } else { a - 1 };
                    let b2 = if b < k { b } else { b - 1 };
                    assert(after[a] == prev[a2]);
                    assert(after[b] == prev[b2]);
                }
            }
        }
    }
    assert(orig.take(n as int) == orig);
    r
}

/// Group the yaks `spec` keeps by effective source. `tasks` is the visible
/// (not dead) set: inheritance is resolved over all of it, not just the kept
/// subset. Returns the groups, ordered by head, and the number of kept yaks
/// with no source at all.
pub fn build(tasks: &Vec<Task>, spec: &FilterSpec) -> (r: (Vec<Group>, usize))
    ensures
        ({
            let tv = tviews(tasks@);
            let ps = tv.filter(|t: TaskView| spec.keeps(tv, t, false));
            &&& r.1 == unsourced_count(tv, ps)
            &&& groups_sorted(r.0@)
            &&& sources_distinct(r.0@)
            &&& forall|i: int| 0 <= i < r.0@.len() ==> {
                let g = #[trigger] r.0@[i];
                &&& (g.tracker@, ostr(g.key)) == tracker_spec(g.source@)
                &&& item_views(g.yaks@).len() > 0
                &&& items_sorted(item_views(g.yaks@))
                &&& item_views(g.yaks@).to_multiset() == members(tv, ps, g.source@).to_multiset()
            }
            &&& forall|k: int| 0 <= k < ps.len() && (#[trigger] effective(tv, ps[k].id)).0 is Some ==> exists|i: int|
                0 <= i < r.0@.len() && Some(r.0@[i].source@) == effective(tv, ps[k].id).0
        }),
{
    let ghost tv = tviews(tasks@);
    let picked = apply(tasks, spec, false);
    let ghost ps = tv.filter(|t: TaskView| spec.keeps(tv, t, false));
    assert(crate::farm::query::ref_views(picked@) == ps);
    let ghost none_p = |t: TaskView| effective(tv, t.id).0 is None;
    let mut groups: Vec<Group> = Vec::new();
    let mut unsourced: usize = 0;
    let mut i: usize = 0;
    assert(ps.take(0).filter(none_p) =~= Seq::empty());
    while i < picked.len()
        invariant
            i <= picked.len(),
            tv == tviews(tasks@),
            crate::farm::query::ref_views(picked@) == ps,
            none_p == (|t: TaskView| effective(tv, t.id).0 is None),
            unsourced == ps.take(i as int).filter(none_p).len(),
            forall|a: int, b: int| 0 <= a < b < groups@.len() ==> #[trigger] groups@[a].source@ != #[trigger] groups@[b].source@,
            forall|a: int| 0 <= a < groups@.len() ==> {
                let g = #[trigger] groups@[a];
                &&& (g.tracker@, ostr(g.key)) == tracker_spec(g.source@)
                &&& item_views(g.yaks@).len() > 0
                &&& item_views(g.yaks@) == members(tv, ps.take(i as int), g.source@)
            },
            forall|k: int| 0 <= k < i && (#[trigger] effective(tv, ps[k].id)).0 is Some ==> exists|a: int|
                0 <= a < groups@.len() && Some(groups@[a].source@) == effective(tv, ps[k].id).0,
        decreases picked.len() - i,
    {
        let t = picked[i];
        let ghost tq = t@;
        assert(ps[i as int] == tq);
        assert(ps.take(i + 1) == ps.take(i as int).push(tq));
        proof {
            ps.take(i as int).lemma_filter_push(tq, none_p);
        }
        let (src, from) = effective_source(tasks, &t.id);
        match src {
            None => {
                unsourced += 1;
                proof {
                    assert forall|a: int| 0 <= a < groups@.len() implies item_views(#[trigger] groups@[a].yaks@) == members(tv, ps.take(i + 1), groups@[a].source@) by {
                        let sp = |t: TaskView| effective(tv, t.id).0 == Some(groups@[a].source@);
                        ps.take(i as int).lemma_filter_push(tq, sp);
                    }
                }
            },
            Some(s) => {
                let mut g: usize = 0;
                while g < groups.len() && !same(groups[g].source.as_str(), s.as_str())
                    invariant
                        g <= groups.len(),
                        forall|q: int| 0 <= q < g ==> groups@[q].source@ != s@,
                    decreases groups.len() - g,
                {
                    g += 1;
                }
                let item = RollupItem { task: t.duplicate(), inherited_from: from };
                let ghost iv = item_view(item);
                assert(iv == (tq, effective(tv, tq.id).1));
                if g < groups.len() {
                    let ghost gs0 = groups@;
                    let mut grp = groups.remove(g);
                    grp.yaks.push(item);
                    groups.insert(g, grp);
                    proof {
                        assert forall|a: int, b: int| 0 <= a < b < groups@.len() implies #[trigger] groups@[a].source@ != #[trigger] groups@[b].source@ by {
                            assert(groups@[a].source == gs0[a].source);
                            assert(groups@[b].source == gs0[b].source);
                        }
                        assert forall|a: int| 0 <= a < groups@.len() implies {
                            let gg = #[trigger] groups@[a];
                            &&& (gg.tracker@, ostr(gg.key)) == tracker_spec(gg.source@)
                            &&& item_views(gg.yaks@).len() > 0
                            &&& item_views(gg.yaks@) == members(tv, ps.take(i + 1), gg.source@)
                        } by {
                            let sp = |t: TaskView| effective(tv, t.id).0 == Some(groups@[a].source@);
                            let mf = |t: TaskView| (t, effective(tv, t.id).1);
                            ps.take(i as int).lemma_filter_push(tq, sp);
                            if a == g {
                                assert(item_views(groups@[a].yaks@) =~= item_views(gs0[a].yaks@).push(iv));
                                assert(ps.take(i as int).filter(sp).push(tq).map_values(mf) =~= ps.take(i as int).filter(sp).map_values(mf).push(mf(tq)));
                            } else {
                                assert(groups@[a] == gs0[a]);
                            }
                        }
                        assert forall|k: int| 0 <= k < i + 1 && (#[trigger] effective(tv, ps[k].id)).0 is Some implies exists|a: int|
                            0 <= a < groups@.len() && Some(groups@[a].source@) == effective(tv, ps[k].id).0 by {
                            if k < i {
                                let a = choose|a: int| 0 <= a < gs0.len() && Some(gs0[a].source@) == effective(tv, ps[k].id).0;
                                assert(groups@[a].source == gs0[a].source);
                            } else {
                                assert(groups@[g as int].source@ == s@);
                            }
                        }
                    }
                } else {
                    let (tracker, key) = tracker_and_key(s.as_str());
                    let mut yaks: Vec<RollupItem> = Vec::new();
                    yaks.push(item);
                    let grp = Group { source: s, tracker, key, yaks };
                    let ghost gs0 = groups@;
                    let ghost ng = grp;
                    groups.push(grp);
                    proof {
                        assert forall|a: int| 0 <= a < groups@.len() implies {
                            let gg = #[trigger] groups@[a];
                            &&& (gg.tracker@, ostr(gg.key)) == tracker_spec(gg.source@)
                            &&& item_views(gg.yaks@).len() > 0
                            &&& item_views(gg.yaks@) == members(tv, ps.take(i + 1), gg.source@)
                        } by {
                            let sp = |t: TaskView| effective(tv, t.id).0 == Some(groups@[a].source@);
                            let mf = |t: TaskView| (t, effective(tv, t.id).1);
                            ps.take(i as int).lemma_filter_push(tq, sp);
                            if a == gs0.len() {
                                assert(ps.take(i as int).filter(sp).len() == 0) by {
                                    if ps.take(i as int).filter(sp).len() > 0 {
                                        let x = ps.take(i as int).filter(sp)[0];
                                        let pt = ps.take(i as int);
                                        assert(pt.filter(sp).contains(x));
                                        pt.lemma_filter_contains_rev(sp, x);
                                        pt.filter_lemma(sp);
                                        assert(sp(pt.filter(sp)[0]));
                                        assert(pt.contains(x));
                                        let k = choose|k: int| 0 <= k < pt.len() && pt[k] == x;
                                        assert(pt[k] == ps[k]);
                                        assert(ps[k] == x);
                                        assert(sp(x));
                                        assert(groups@[a].source@ == s@);
                                        assert(effective(tv, ps[k].id).0 is Some);
                                        let b = choose|b: int| 0 <= b < gs0.len() && Some(gs0[b].source@) == effective(tv, ps[k].id).0;
                                        assert(gs0[b].source@ == s@);
                                    }
                                }
                                assert(ps.take(i as int).filter(sp) =~= Seq::empty());
                                assert(item_views(groups@[a].yaks@) =~= seq![iv]);
                                assert(ps.take(i as int).filter(sp).push(tq).map_values(mf) =~= seq![mf(tq)]);
                            } else {
                                assert(groups@[a] == gs0[a]);
                            }
                        }
                        assert forall|k: int| 0 <= k < i + 1 && (#[trigger] effective(tv, ps[k].id)).0 is Some implies exists|a: int|
                            0 <= a < groups@.len() && Some(groups@[a].source@) == effective(tv, ps[k].id).0 by {
                            if k < i {
                                let a = choose|a: int| 0 <= a < gs0.len() && Some(gs0[a].source@) == effective(tv, ps[k].id).0;
                                assert(groups@[a] == gs0[a]);
                            } else {
                                assert(groups@[gs0.len() as int].source@ == s@);
                            }
                        }
                    }
                }
            },
        }
        i += 1;
    }
    assert(ps.take(picked.len() as int) == ps);
    // each group's yaks in id order, then the groups in head order
    let mut sorted: Vec<Group> = Vec::new();
    let mut groups = groups;
    let ng = groups.len();
    let ghost g0 = groups@;
    while groups.len() > 0
        invariant
            ng == g0.len(),
            groups.len() <= ng,
            groups@ == g0.skip(ng - groups.len()),
            sorted@.len() == ng - groups.len(),
            sources_distinct(g0),
            forall|a: int| 0 <= a < sorted@.len() ==> {
                let gg = #[trigger] sorted@[a];
                &&& gg.source == g0[a].source
                &&& gg.tracker == g0[a].tracker
                &&& gg.key == g0[a].key
                &&& items_sorted(item_views(gg.yaks@))
                &&& item_views(gg.yaks@).to_multiset() == item_views(g0[a].yaks@).to_multiset()
            },
        decreases groups.len(),
    {
        let ghost before = groups@;
        let grp = groups.remove(0);
        assert(groups@ =~= g0.skip(ng - groups.len()));
        let Group { source, tracker, key, yaks } = grp;
        let ylen = yaks.len();
        let yaks = sort_items(yaks);
        sorted.push(Group { source, tracker, key, yaks });
    }
    proof {
        assert forall|a: int, b: int| 0 <= a < b < sorted@.len() implies #[trigger] sorted@[a].source@ != #[trigger] sorted@[b].source@ by {
            assert(sorted@[a].source == g0[a].source);
            assert(sorted@[b].source == g0[b].source);
        }
    }
    let out = sort_groups(sorted);
    proof {
        broadcast use vstd::seq_lib::group_to_multiset_ensures;
        assert forall|i: int| 0 <= i < out@.len() implies {
            let g = #[trigger] out@[i];
            &&& (g.tracker@, ostr(g.key)) == tracker_spec(g.source@)
            &&& item_views(g.yaks@).len() > 0
            &&& items_sorted(item_views(g.yaks@))
            &&& item_views(g.yaks@).to_multiset() == members(tv, ps, g.source@).to_multiset()
        } by {
            assert(out@.to_multiset().count(out@[i]) > 0);
            assert(sorted@.contains(out@[i]));
            let a = choose|a: int| 0 <= a < sorted@.len() && sorted@[a] == out@[i];
            assert(item_views(out@[i].yaks@).to_multiset().len() == item_views(g0[a].yaks@).to_multiset().len());
        }
        assert forall|k: int| 0 <= k < ps.len() && (#[trigger] effective(tv, ps[k].id)).0 is Some implies exists|i: int|
            0 <= i < out@.len() && Some(out@[i].source@) == effective(tv, ps[k].id).0 by {
            let a = choose|a: int| 0 <= a < g0.len() && Some(g0[a].source@) == effective(tv, ps[k].id).0;
            assert(sorted@[a].source == g0[a].source);
            assert(sorted@.to_multiset().count(sorted@[a]) > 0);
            assert(out@.contains(sorted@[a]));
        }
    }
    (out, unsourced)
}

} // verus!
