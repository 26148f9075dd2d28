//! The yak-reference model: how one yak refers to another in free text, and
//! how such a reference is detected and resolved.
//!
//! A canonical reference is a maximal run of `[a-z0-9.-]`; wiki brackets
//! `[[..]]` are cosmetic and removed by [`strip_wikilinks`] before scanning.
//! A candidate token is a reference iff it exactly equals a real yak id: the
//! set of real ids is supplied by the caller ([`KnownIds`]), so nothing keys
//! off a configured prefix.

use vstd::prelude::*;
use crate::text::{
    is_lower, is_digit, chars_of, string_of, slice, eq, push_all, occurs_at, first_from,
    lemma_first_from, find_from,
};

verus! {

/// A char that can appear inside a reference token: lowercase ASCII, a digit,
/// `-`, or `.`.
pub open spec fn ref_char(c: char) -> bool {
    is_lower(c) || is_digit(c) || c == '-' || c == '.'
}

pub fn is_ref_char(c: char) -> (b: bool)
    ensures
        b == ref_char(c),
{
    ('a' <= c && c <= 'z') || ('0' <= c && c <= '9') || c == '-' || c == '.'
}

/// `s` with every non-overlapping occurrence of the non-empty `pat`, scanning
/// left to right, replaced by `rep` (`str::replace`).
pub open spec fn replace_seq(s: Seq<char>, pat: Seq<char>, rep: Seq<char>) -> Seq<char>
    recommends
        pat.len() > 0,
    decreases s.len(),
{
    if pat.len() == 0 {
        s
    } else {
        match first_from(s, pat, 0) {
            Some(i) => if 0 <= i && i + pat.len() <= s.len() {
                s.take(i) + rep + replace_seq(s.skip(i + pat.len()), pat, rep)
            } else {
                s
            },
            None => s,
        }
    }
}

pub open spec fn open_brackets() -> Seq<char> {
    seq!['[', '[']
}

pub open spec fn close_brackets() -> Seq<char> {
    seq![']', ']']
}

/// `[[yak-0af1]]` rewritten to `yak-0af1`: every `[[`, then every `]]`, removed.
pub open spec fn unwikilinked(s: Seq<char>) -> Seq<char> {
    replace_seq(replace_seq(s, open_brackets(), seq![]), close_brackets(), seq![])
}

proof fn lemma_first_from_shift(s: Seq<char>, pat: Seq<char>, k: int)
    requires
        0 <= k <= s.len(),
        pat.len() > 0,
    ensures
        first_from(s, pat, k) == match first_from(s.skip(k), pat, 0) {
            Some(i) => Some(i + k),
            None => None,
        },
{
    lemma_first_from(s, pat, k);
    lemma_first_from(s.skip(k), pat, 0);
    assert forall|j: int| 0 <= j implies occurs_at(s.skip(k), pat, j) == occurs_at(s, pat, j + k) by {
        if j + pat.len() <= s.skip(k).len() {
            assert(s.skip(k).subrange(j, j + pat.len()) =~= s.subrange(j + k, j + k + pat.len()));
        }
    }
    match first_from(s, pat, k) {
        Some(i) => {
            match first_from(s.skip(k), pat, 0) {
                Some(i2) => {
                    if i2 + k < i {
                        assert(occurs_at(s, pat, i2 + k));
                    }
                    if i2 + k > i {
                        assert(occurs_at(s.skip(k), pat, i - k));
                    }
                },
                None => {
                    assert(occurs_at(s.skip(k), pat, i - k));
                },
            }
        },
        None => {
            match first_from(s.skip(k), pat, 0) {
                Some(i2) => {
                    assert(occurs_at(s, pat, i2 + k));
                },
                None => {},
            }
        },
    }
}

/// `s` with each occurrence of the non-empty `pat` replaced by `rep`.
pub fn replace(s: &[char], pat: &[char], rep: &[char]) -> (r: Vec<char>)
    requires
        pat.len() > 0,
    ensures
        r@ == replace_seq(s@, pat@, rep@),
{
    let mut out: Vec<char> = Vec::new();
    let mut pos: usize = 0;
    assert(s@.skip(0) == s@);
    while pos <= s.len()
        invariant
            pat.len() > 0,
            pos <= s.len(),
            out@ + replace_seq(s@.skip(pos as int), pat@, rep@) == replace_seq(s@, pat@, rep@),
        decreases s.len() - pos,
    {
        proof {
            lemma_first_from_shift(s@, pat@, pos as int);
            lemma_first_from(s@, pat@, pos as int);
        }
        match find_from(s, pat, pos) {
            Some(i) => {
                let piece = slice(s, pos, i);
                let ghost before = out@;
                push_all(&mut out, &piece);
                push_all(&mut out, rep);
                proof {
                    let rest = s@.skip(pos as int);
                    assert(first_from(rest, pat@, 0) == Some(i - pos));
                    assert(rest.take(i - pos) == piece@);
                    assert(rest.skip(i - pos + pat.len()) == s@.skip(i + pat.len()));
                    assert(out@ + replace_seq(s@.skip(i + pat.len()), pat@, rep@) == before + (
                    piece@ + rep@ + replace_seq(s@.skip(i + pat.len()), pat@, rep@)));
                }
                pos = i + pat.len();
            },
            None => {
                let piece = slice(s, pos, s.len());
                let ghost before = out@;
                push_all(&mut out, &piece);
                proof {
                    let rest = s@.skip(pos as int);
                    assert(rest == piece@);
                }
                return out;
            },
        }
    }
    out
}

/// Rewrite `[[yak-0af1]]` wiki-links to bare `yak-0af1` for uniform handling:
/// the bracket pairs are removed and nothing else is touched.
pub fn strip_wikilinks(text: &str) -> (r: String)
    ensures
        r@ == unwikilinked(text@),
{
    let v = chars_of(text);
    let open = vec!['[', '['];
    let close = vec![']', ']'];
    let empty: Vec<char> = Vec::new();
    assert(open@ == open_brackets());
    assert(close@ == close_brackets());
    let a = replace(&v, &open, &empty);
    let b = replace(&a, &close, &empty);
    string_of(&b)
}

/// The set of real yak ids a token is validated against.
pub struct KnownIds {
    ids: Vec<Vec<char>>,
}

impl KnownIds {
    /// The ids, as character sequences.
    pub closed spec fn ids(&self) -> Seq<Seq<char>> {
        self.ids@.map_values(|v: Vec<char>| v@)
    }

    /// Whether `s` is a real id.
    pub open spec fn knows(&self, s: Seq<char>) -> bool {
        self.ids().contains(s)
    }

    /// Whether the characters `t` spell a real id.
    pub fn contains_chars(&self, t: &[char]) -> (b: bool)
        ensures
            b == self.knows(t@),
    {
        let mut i: usize = 0;
        while i < self.ids.len()
            invariant
                i <= self.ids.len(),
                forall|j: int| 0 <= j < i ==> self.ids@[j]@ != t@,
            decreases self.ids.len() - i,
        {
            if eq(&self.ids[i], t) {
                assert(self.ids()[i as int] == t@);
                return true;
            }
            i += 1;
        }
        proof {
            if self.knows(t@) {
                let k = choose|k: int| 0 <= k < self.ids().len() && self.ids()[k] == t@;
                assert(self.ids@[k]@ == t@);
            }
        }
        false
    }

    /// Whether `s` is a real id.
    pub fn contains(&self, s: &str) -> (b: bool)
        ensures
            b == self.knows(s@),
    {
        let v = chars_of(s);
        self.contains_chars(&v)
    }
}

/// The predicate "is a real id" over the given ids.
pub fn known_from(ids: &[&str]) -> (k: KnownIds)
    ensures
        forall|s: Seq<char>| k.knows(s) <==> exists|i: int| 0 <= i < ids.len() && ids@[i]@ == s,
{
    let mut v: Vec<Vec<char>> = Vec::new();
    let mut i: usize = 0;
    while i < ids.len()
        invariant
            i <= ids.len(),
            v.len() == i,
            forall|j: int| 0 <= j < i ==> v@[j]@ == ids@[j]@,
        decreases ids.len() - i,
    {
        v.push(chars_of(ids[i]));
        i += 1;
    }
    let k = KnownIds { ids: v };
    assert forall|s: Seq<char>| k.knows(s) <==> exists|i: int| 0 <= i < ids.len() && ids@[i]@ == s by {
        if k.knows(s) {
            let j = choose|j: int| 0 <= j < k.ids().len() && k.ids()[j] == s;
            assert(ids@[j]@ == s);
        }
        if exists|i: int| 0 <= i < ids.len() && ids@[i]@ == s {
            let j = choose|j: int| 0 <= j < ids.len() && ids@[j]@ == s;
            assert(k.ids()[j] == s);
        }
    }
    k
}

/// The known-id predicate over owned ids.
pub fn known_from_strings(ids: &Vec<String>) -> (k: KnownIds)
    ensures
        forall|s: Seq<char>| k.knows(s) <==> exists|i: int| 0 <= i < ids.len() && ids@[i]@ == s,
{
    let mut v: Vec<Vec<char>> = Vec::new();
    let mut i: usize = 0;
    while i < ids.len()
        invariant
            i <= ids.len(),
            v.len() == i,
            forall|j: int| 0 <= j < i ==> v@[j]@ == ids@[j]@,
        decreases ids.len() - i,
    {
        v.push(chars_of(ids[i].as_str()));
        i += 1;
    }
    let k = KnownIds { ids: v };
    assert forall|s: Seq<char>| k.knows(s) <==> exists|i: int| 0 <= i < ids.len() && ids@[i]@ == s by {
        if k.knows(s) {
            let j = choose|j: int| 0 <= j < k.ids().len() && k.ids()[j] == s;
            assert(ids@[j]@ == s);
        }
        if exists|i: int| 0 <= i < ids.len() && ids@[i]@ == s {
            let j = choose|j: int| 0 <= j < ids.len() && ids@[j]@ == s;
            assert(k.ids()[j] == s);
        }
    }
    k
}

/// Resolve a single candidate `token` to a canonical yak id: it resolves iff
/// it is a real id, whatever its prefix.
pub fn resolve(token: &str, known: &KnownIds) -> (r: Option<String>)
    ensures
        r is Some <==> known.knows(token@),
        r matches Some(id) ==> id@ == token@,
{
    if known.contains(token) {
        Some(string_of(&chars_of(token)))
    } else {
        None
    }
}

/// One detected reference within a run of text: char offsets into that text
/// (not bytes), plus the resolved canonical id.
#[derive(Debug, Clone, PartialEq, Eq)]
pub struct RefMatch {
    /// Char index where the reference token starts.
    pub start: usize,
    /// Char length of the token.
    pub len: usize,
    /// The resolved yak id.
    pub id: String,
}

/// The end of the run of reference chars starting at `i`.
pub open spec fn run_end(s: Seq<char>, i: int) -> int
    decreases s.len() - i,
{
    if i < 0 || i >= s.len() || !ref_char(s[i]) {
        i
    } else {
        run_end(s, i + 1)
    }
}

pub proof fn lemma_run_end(s: Seq<char>, i: int)
    requires
        0 <= i <= s.len(),
    ensures
        i <= run_end(s, i) <= s.len(),
        forall|j: int| i <= j < run_end(s, i) ==> ref_char(s[j]),
        run_end(s, i) < s.len() ==> !ref_char(s[run_end(s, i)]),
    decreases s.len() - i,
{
    if i < s.len() && ref_char(s[i]) {
        lemma_run_end(s, i + 1);
    }
}

/// The references found in `s` from position `i` on: each maximal run of
/// reference chars that `known` accepts, as (start, len, id).
pub open spec fn scan_from(s: Seq<char>, i: int, known: Set<Seq<char>>) -> Seq<(int, int, Seq<char>)>
    decreases s.len() - i,
{
    if i < 0 || i >= s.len() {
        seq![]
    } else if !ref_char(s[i]) {
        scan_from(s, i + 1, known)
    } else {
        let e = run_end(s, i);
        let tok = s.subrange(i, e);
        if e <= i || e > s.len() {
            seq![]
        } else if known.contains(tok) {
            seq![(i, e - i, tok)] + scan_from(s, e, known)
        } else {
            scan_from(s, e, known)
        }
    }
}

impl KnownIds {
    pub closed spec fn as_set(&self) -> Set<Seq<char>> {
        Set::new(|s: Seq<char>| self.knows(s))
    }

    pub proof fn lemma_as_set(&self)
        ensures
            forall|s: Seq<char>| #[trigger] self.as_set().contains(s) == self.knows(s),
    {
    }
}

pub open spec fn match_view(m: RefMatch) -> (int, int, Seq<char>) {
    (m.start as int, m.len as int, m.id@)
}

pub proof fn lemma_scan_from_sound(s: Seq<char>, i: int, known: Set<Seq<char>>)
    requires
        0 <= i <= s.len(),
    ensures
        forall|k: int|
            0 <= k < scan_from(s, i, known).len() ==> {
                let (st, l, id) = #[trigger] scan_from(s, i, known)[k];
                &&& i <= st
                &&& 0 < l
                &&& st + l <= s.len()
                &&& s.subrange(st, st + l) == id
                &&& known.contains(id)
            },
    decreases s.len() - i,
{
    if i < s.len() {
        if !ref_char(s[i]) {
            lemma_scan_from_sound(s, i + 1, known);
            assert(scan_from(s, i, known) == scan_from(s, i + 1, known));
        } else {
            lemma_run_end(s, i);
            let e = run_end(s, i);
            lemma_scan_from_sound(s, e, known);
            let rest = scan_from(s, e, known);
            if !known.contains(s.subrange(i, e)) {
                assert(scan_from(s, i, known) == rest);
            } else {
                assert forall|k: int| 0 <= k < scan_from(s, i, known).len() implies {
                    let (st, l, id) = #[trigger] scan_from(s, i, known)[k];
                    &&& i <= st
                    &&& 0 < l
                    &&& st + l <= s.len()
                    &&& s.subrange(st, st + l) == id
                    &&& known.contains(id)
                } by {
                    if k > 0 {
                        assert(scan_from(s, i, known)[k] == rest[k - 1]);
                    }
                }
            }
        }
    }
}

/// Scan a run of text for yak references, keeping only tokens that `known`
/// confirms are real ids, in order. Offsets are char indices into `text`.
pub fn scan(text: &str, known: &KnownIds) -> (out: Vec<RefMatch>)
    ensures
        out@.map_values(|m: RefMatch| match_view(m)) == scan_from(text@, 0, known.as_set()),
        forall|k: int|
            0 <= k < out.len() ==> {
                &&& #[trigger] out@[k].len > 0
                &&& out@[k].start + out@[k].len <= text@.len()
                &&& text@.subrange(out@[k].start as int, out@[k].start + out@[k].len)
                    == out@[k].id@
                &&& known.knows(out@[k].id@)
            },
{
    let chars = chars_of(text);
    let ghost set = known.as_set();
    proof {
        known.lemma_as_set();
    }
    let mut out: Vec<RefMatch> = Vec::new();
    let mut i: usize = 0;
    while i < chars.len()
        invariant
            chars@ == text@,
            i <= chars.len(),
            set == known.as_set(),
            out@.map_values(|m: RefMatch| match_view(m)) + scan_from(chars@, i as int, set)
                == scan_from(chars@, 0, set),
        decreases chars.len() - i,
    {
        if !is_ref_char(chars[i]) {
            i += 1;
            continue;
        }
        let start = i;
        while i < chars.len() && is_ref_char(chars[i])
            invariant
                start <= i <= chars.len(),
                start < chars.len(),
                ref_char(chars@[start as int]),
                run_end(chars@, start as int) == run_end(chars@, i as int),
            decreases chars.len() - i,
        {
            i += 1;
        }
        let tok = slice(&chars, start, i);
        let ghost before = out@;
        if known.contains_chars(&tok) {
            out.push(RefMatch { start, len: i - start, id: string_of(&tok) });
            proof {
                known.lemma_as_set();
                assert(out@.map_values(|m: RefMatch| match_view(m)) =~= before.map_values(
                    |m: RefMatch| match_view(m),
                ).push((start as int, i - start, tok@)));
            }
        } else {
            proof {
                known.lemma_as_set();
            }
        }
    }
    proof {
        lemma_scan_from_sound(chars@, 0, set);
        known.lemma_as_set();
        assert forall|k: int| 0 <= k < out.len() implies {
            &&& #[trigger] out@[k].len > 0
            &&& out@[k].start + out@[k].len <= text@.len()
            &&& text@.subrange(out@[k].start as int, out@[k].start + out@[k].len) == out@[k].id@
            &&& known.knows(out@[k].id@)
        } by {
            let v = out@.map_values(|m: RefMatch| match_view(m));
            assert(v[k] == match_view(out@[k]));
        }
    }
    out
}

// ---------------------------------------------------------------------------
// the canonical shape
// ---------------------------------------------------------------------------

/// A char a herd prefix is made of: `[a-z0-9]`.
pub open spec fn prefix_char(c: char) -> bool {
    is_lower(c) || is_digit(c)
}

/// The end of the run of prefix chars starting at `i`.
pub open spec fn prefix_end(s: Seq<char>, i: int) -> int
    decreases s.len() - i,
{
    if i < 0 || i >= s.len() || !prefix_char(s[i]) {
        i
    } else {
        prefix_end(s, i + 1)
    }
}

/// The canonical reference shape `<prefix>-<tail>`: a non-empty `[a-z0-9]`
/// prefix, a `-`, then a non-empty tail of reference chars.
pub open spec fn ref_shape(s: Seq<char>) -> bool {
    let i = prefix_end(s, 0);
    &&& 0 < i
    &&& i + 1 < s.len()
    &&& s[i] == '-'
    &&& forall|j: int| i < j < s.len() ==> ref_char(#[trigger] s[j])
}

/// Whether `s` has the canonical reference shape `<prefix>-<tail>`: what a
/// minted or renamed id must look like.
pub fn has_ref_shape(s: &str) -> (b: bool)
    ensures
        b == ref_shape(s@),
{
    let c = chars_of(s);
    let mut i: usize = 0;
    while i < c.len() && (('a' <= c[i] && c[i] <= 'z') || ('0' <= c[i] && c[i] <= '9'))
        invariant
            i <= c.len(),
            c@ == s@,
            prefix_end(c@, 0) == prefix_end(c@, i as int),
        decreases c.len() - i,
    {
        i += 1;
    }
    assert(prefix_end(c@, i as int) == i);
    if i == 0 || i >= c.len() || c[i] != '-' || i + 1 >= c.len() {
        return false;
    }
    let mut j = i + 1;
    while j < c.len()
        invariant
            i < j <= c.len(),
            c@ == s@,
            prefix_end(c@, 0) == i,
            i + 1 < c.len(),
            c@[i as int] == '-',
            forall|m: int| i < m < j ==> ref_char(#[trigger] c@[m]),
        decreases c.len() - j,
    {
        if !is_ref_char(c[j]) {
            assert(!ref_char(s@[j as int]));
            assert(prefix_end(s@, 0) == i);
            return false;
        }
        j += 1;
    }
    true
}

// ---------------------------------------------------------------------------
// rewriting references
// ---------------------------------------------------------------------------

/// The new id `renames` gives `id`: the first pair naming it.
pub open spec fn renamed(renames: Seq<(Seq<char>, Seq<char>)>, id: Seq<char>) -> Option<Seq<char>>
    decreases renames.len(),
{
    if renames.len() == 0 {
        None
    } else if renames[0].0 == id {
        Some(renames[0].1)
    } else {
        renamed(renames.drop_first(), id)
    }
}

pub open spec fn pair_views(v: Seq<(String, String)>) -> Seq<(Seq<char>, Seq<char>)> {
    v.map_values(|p: (String, String)| (p.0@, p.1@))
}

/// `s` from position `i` on with every reference token that `renames`
/// names replaced by its new id, and whether any was.
pub open spec fn rewrite_from(s: Seq<char>, i: int, renames: Seq<(Seq<char>, Seq<char>)>) -> (Seq<char>, bool)
    decreases s.len() - i,
{
    if i < 0 || i >= s.len() {
        (seq![], false)
    } else if !ref_char(s[i]) {
        let rest = rewrite_from(s, i + 1, renames);
        (seq![s[i]] + rest.0, rest.1)
    } else {
        let e = run_end(s, i);
        if e <= i || e > s.len() {
            (seq![], false)
        } else {
            let tok = s.subrange(i, e);
            let rest = rewrite_from(s, e, renames);
            match renamed(renames, tok) {
                Some(n) => (n + rest.0, true),
                None => (tok + rest.0, rest.1),
            }
        }
    }
}

/// Look up a token among the renames.
pub fn lookup_rename(renames: &Vec<(String, String)>, tok: &[char]) -> (r: Option<String>)
    ensures
        match r {
            Some(n) => renamed(pair_views(renames@), tok@) == Some(n@),
            None => renamed(pair_views(renames@), tok@) is None,
        },
{
    let ghost pv = pair_views(renames@);
    let mut i: usize = 0;
    assert(pv.skip(0) == pv);
    while i < renames.len()
        invariant
            i <= renames.len(),
            pv == pair_views(renames@),
            renamed(pv, tok@) == renamed(pv.skip(i as int), tok@),
        decreases renames.len() - i,
    {
        let ghost t = pv.skip(i as int);
        assert(t[0] == (renames@[i as int].0@, renames@[i as int].1@));
        assert(t.drop_first() == pv.skip(i + 1));
        if eq(&chars_of(renames[i].0.as_str()), tok) {
            return Some(renames[i].1.clone());
        }
        i += 1;
    }
    None
}

/// Rewrite every whole reference token in `text` that `renames` names to its
/// new id, and say whether any was. Tokens are maximal runs of reference
/// chars, so a lookalike inside a longer token is never touched.
pub fn rewrite(text: &str, renames: &Vec<(String, String)>) -> (r: (String, bool))
    ensures
        (r.0@, r.1) == rewrite_from(text@, 0, pair_views(renames@)),
{
    let c = chars_of(text);
    let ghost pv = pair_views(renames@);
    let mut out: Vec<char> = Vec::new();
    let mut changed = false;
    let mut i: usize = 0;
    while i < c.len()
        invariant
            c@ == text@,
            i <= c.len(),
            pv == pair_views(renames@),
            ({
                let rest = rewrite_from(c@, i as int, pv);
                (out@ + rest.0, changed || rest.1) == rewrite_from(c@, 0, pv)
            }),
        decreases c.len() - i,
    {
        if !is_ref_char(c[i]) {
            let ghost rest = rewrite_from(c@, i + 1, pv);
            assert(rewrite_from(c@, i as int, pv) == (seq![c@[i as int]] + rest.0, rest.1));
            out.push(c[i]);
            proof {
                vstd::seq_lib::lemma_concat_associative(out@.drop_last(), seq![c@[i as int]], rest.0);
                assert(out@ == out@.drop_last() + seq![c@[i as int]]);
            }
            i += 1;
            continue;
        }
        let start = i;
        while i < c.len() && is_ref_char(c[i])
            invariant
                start <= i <= c.len(),
                start < c.len(),
                ref_char(c@[start as int]),
                run_end(c@, start as int) == run_end(c@, i as int),
            decreases c.len() - i,
        {
            i += 1;
        }
        proof {
            lemma_run_end(c@, start as int);
        }
        let tok = slice(&c, start, i);
        let ghost rest = rewrite_from(c@, i as int, pv);
        let ghost before = out@;
        match lookup_rename(renames, &tok) {
            Some(n) => {
                push_all(&mut out, &chars_of(n.as_str()));
                changed = true;
                proof {
                    vstd::seq_lib::lemma_concat_associative(before, n@, rest.0);
                }
            },
            None => {
                push_all(&mut out, &tok);
                proof {
                    vstd::seq_lib::lemma_concat_associative(before, tok@, rest.0);
                }
            },
        }
    }
    proof {
        assert(rewrite_from(c@, c.len() as int, pv) == (Seq::<char>::empty(), false));
        assert(out@ + Seq::<char>::empty() == out@);
    }
    (string_of(&out), changed)
}

} // verus!
