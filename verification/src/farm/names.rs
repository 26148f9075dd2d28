//! Attachment file names: sanitizing a user-supplied name so it is safe on
//! disk and inside a markdown link.

use vstd::prelude::*;
use crate::text::{chars_of, string_of, trim, trim_seq, split_seq, is_lower, is_upper, is_digit, copy_chars, split_char};

verus! {

/// What `char::is_alphanumeric` says of a char (Unicode `Alphabetic` or a
/// numeric general category).
pub uninterp spec fn alphanumeric(c: char) -> bool;

/// Calls `char::is_alphanumeric`; the result is named [`alphanumeric`]. Among
/// ASCII chars exactly the letters and digits are alphanumeric.
#[verifier::external_body]
pub(crate) fn is_alphanumeric(c: char) -> (b: bool)
    ensures
        b == alphanumeric(c),
        c <= '\u{7f}' ==> (b == (is_lower(c) || is_upper(c) || is_digit(c))),
{
    c.is_alphanumeric()
}

/// A char kept as is in an attachment name.
pub open spec fn name_char(c: char) -> bool {
    alphanumeric(c) || c == '.' || c == '_' || c == '-' || c == '+'
}

/// The part of `s` after its last `/` or `\`.
pub open spec fn last_component(s: Seq<char>) -> Seq<char>
    decreases s.len(),
{
    if s.len() == 0 {
        s
    } else if s.last() == '/' || s.last() == '\\' {
        seq![]
    } else {
        last_component(s.drop_last()).push(s.last())
    }
}

/// Every char but a kept one turned into `-`, runs of `-` collapsed.
pub open spec fn sanitized(s: Seq<char>) -> Seq<char>
    decreases s.len(),
{
    if s.len() == 0 {
        s
    } else {
        let prev = sanitized(s.drop_last());
        let c = if name_char(s.last()) { s.last() } else { '-' };
        if c == '-' && prev.len() > 0 && prev.last() == '-' {
            prev
        } else {
            prev.push(c)
        }
    }
}

pub open spec fn dot_or_dash(c: char) -> bool {
    c == '.' || c == '-'
}

/// `s` without leading `.`/`-` chars.
pub open spec fn strip_front(s: Seq<char>) -> Seq<char>
    decreases s.len(),
{
    if s.len() > 0 && dot_or_dash(s[0]) {
        strip_front(s.drop_first())
    } else {
        s
    }
}

/// `s` without trailing `.`/`-` chars.
pub open spec fn strip_back(s: Seq<char>) -> Seq<char>
    decreases s.len(),
{
    if s.len() > 0 && dot_or_dash(s.last()) {
        strip_back(s.drop_last())
    } else {
        s
    }
}

/// The index of the last `.` in `s`.
pub open spec fn last_dot(s: Seq<char>) -> Option<int>
    decreases s.len(),
{
    if s.len() == 0 {
        None
    } else if s.last() == '.' {
        Some(s.len() - 1)
    } else {
        last_dot(s.drop_last())
    }
}

/// The file name of a path (`Path::file_name`): its last component, with
/// empty and `.` components skipped; none when that is `..` or nothing.
pub open spec fn file_name(p: Seq<char>) -> Option<Seq<char>> {
    let comps = split_seq(p, '/').filter(|c: Seq<char>| c.len() > 0 && c != seq!['.']);
    if comps.len() == 0 || comps.last() == seq!['.', '.'] {
        None
    } else {
        Some(comps.last())
    }
}

/// The extension of a file name (`Path::extension`): what follows its last
/// `.`, unless there is none or the only one leads the name.
pub open spec fn name_extension(name: Seq<char>) -> Option<Seq<char>> {
    match last_dot(name) {
        Some(i) => if i == 0 {
            None
        } else {
            Some(name.skip(i + 1))
        },
        None => None,
    }
}

pub open spec fn path_extension(p: Seq<char>) -> Option<Seq<char>> {
    match file_name(p) {
        Some(n) => name_extension(n),
        None => None,
    }
}

/// The sanitized attachment name for `raw`, keeping `keep_ext_of`'s
/// extension when the name has none.
pub open spec fn attachment_name_spec(raw: Seq<char>, keep_ext_of: Seq<char>) -> Option<Seq<char>> {
    let out = strip_back(strip_front(sanitized(last_component(trim_seq(raw)))));
    if out.len() == 0 {
        None
    } else if path_extension(out) is None && path_extension(keep_ext_of) is Some {
        Some(out + seq!['.'] + path_extension(keep_ext_of)->0)
    } else {
        Some(out)
    }
}

fn last_component_exec(s: &[char]) -> (r: Vec<char>)
    ensures
        r@ == last_component(s@),
{
    let mut i = s.len();
    while i > 0 && s[i - 1] != '/' && s[i - 1] != '\\'
        invariant
            i <= s.len(),
            forall|j: int| i <= j < s.len() ==> s@[j] != '/' && s@[j] != '\\',
        decreases i,
    {
        i -= 1;
    }
    let r = crate::text::slice(s, i, s.len());
    proof {
        lemma_last_component(s@, i as int);
    }
    r
}

proof fn lemma_last_component(s: Seq<char>, i: int)
    requires
        0 <= i <= s.len(),
        forall|j: int| i <= j < s.len() ==> s[j] != '/' && s[j] != '\\',
        i == 0 || s[i - 1] == '/' || s[i - 1] == '\\',
    ensures
        last_component(s) == s.subrange(i, s.len() as int),
    decreases s.len(),
{
    if s.len() == 0 {
    } else if i == s.len() {
        assert(s.subrange(i, s.len() as int) =~= seq![]);
    } else {
        lemma_last_component(s.drop_last(), i);
        assert(s.subrange(i, s.len() as int) =~= s.drop_last().subrange(i, s.len() - 1).push(s.last()));
    }
}

fn sanitize(s: &[char]) -> (r: Vec<char>)
    ensures
        r@ == sanitized(s@),
{
    let mut out: Vec<char> = Vec::new();
    let mut i: usize = 0;
    assert(s@.take(0) =~= Seq::<char>::empty());
    while i < s.len()
        invariant
            i <= s.len(),
            out@ == sanitized(s@.take(i as int)),
        decreases s.len() - i,
    {
        let c0 = s[i];
        let c = if is_alphanumeric(c0) || c0 == '.' || c0 == '_' || c0 == '-' || c0 == '+' {
            c0
        } else {
            '-'
        };
        proof {
            assert(s@.take(i + 1).drop_last() == s@.take(i as int));
            assert(s@.take(i + 1).last() == c0);
        }
        if !(c == '-' && out.len() > 0 && out[out.len() - 1] == '-') {
            out.push(c);
        }
        i += 1;
    }
    assert(s@.take(s.len() as int) == s@);
    out
}

fn strip_ends(s: &[char]) -> (r: Vec<char>)
    ensures
        r@ == strip_back(strip_front(s@)),
{
    let mut a: usize = 0;
    assert(s@.skip(0) == s@);
    while a < s.len() && (s[a] == '.' || s[a] == '-')
        invariant
            a <= s.len(),
            strip_front(s@) == strip_front(s@.skip(a as int)),
        decreases s.len() - a,
    {
        assert(s@.skip(a as int).drop_first() == s@.skip(a + 1));
        a += 1;
    }
    let mut b = s.len();
    let ghost f = s@.skip(a as int);
    assert(strip_front(f) == f);
    assert(f.take(f.len() as int) == f);
    while b > a && (s[b - 1] == '.' || s[b - 1] == '-')
        invariant
            a <= b <= s.len(),
            f == s@.skip(a as int),
            strip_back(f) == strip_back(f.take(b - a)),
        decreases b,
    {
        assert(f.take(b - a).drop_last() == f.take(b - a - 1));
        assert(f.take(b - a).last() == s@[b - 1]);
        b -= 1;
    }
    assert(f.take(b - a) == s@.subrange(a as int, b as int));
    crate::text::slice(s, a, b)
}

fn last_dot_exec(s: &[char]) -> (r: Option<usize>)
    ensures
        match r {
            Some(i) => last_dot(s@) == Some(i as int) && i < s.len(),
            None => last_dot(s@) is None,
        },
{
    let mut i = s.len();
    assert(s@.take(s.len() as int) == s@);
    while i > 0
        invariant
            i <= s.len(),
            last_dot(s@) == last_dot(s@.take(i as int)),
        decreases i,
    {
        assert(s@.take(i as int).drop_last() == s@.take(i - 1));
        if s[i - 1] == '.' {
            return Some(i - 1);
        }
        i -= 1;
    }
    None
}

fn extension_of_name(name: &[char]) -> (r: Option<Vec<char>>)
    ensures
        match r {
            Some(e) => name_extension(name@) == Some(e@),
            None => name_extension(name@) is None,
        },
{
    match last_dot_exec(name) {
        Some(i) => if i == 0 {
            None
        } else {
            Some(crate::text::slice(name, i + 1, name.len()))
        },
        None => None,
    }
}

pub(crate) fn file_name_exec(p: &[char]) -> (r: Option<Vec<char>>)
    ensures
        match r {
            Some(n) => file_name(p@) == Some(n@),
            None => file_name(p@) is None,
        },
{
    let parts = split_char(p, '/');
    let ghost pv = parts@.map_values(|x: Vec<char>| x@);
    let ghost keep = |c: Seq<char>| c.len() > 0 && c != seq!['.'];
    let mut last: Option<usize> = None;
    let mut i: usize = 0;
    assert(pv.take(0).filter(keep) =~= Seq::<Seq<char>>::empty());
    while i < parts.len()
        invariant
            i <= parts.len(),
            pv == parts@.map_values(|x: Vec<char>| x@),
            pv == split_seq(p@, '/'),
            keep == (|c: Seq<char>| c.len() > 0 && c != seq!['.']),
            match last {
                Some(k) => k < i && pv.take(i as int).filter(keep).len() > 0 && pv.take(i as int).filter(keep).last() == pv[k as int],
                None => pv.take(i as int).filter(keep).len() == 0,
            },
        decreases parts.len() - i,
    {
        proof {
            assert(pv.take(i + 1) == pv.take(i as int).push(pv[i as int]));
            pv.take(i as int).lemma_filter_push(pv[i as int], keep);
        }
        let c = &parts[i];
        let dot = c.len() == 1 && c[0] == '.';
        proof {
            if c.len() == 1 {
                assert(dot == (c@ == seq!['.'])) by {
                    if c@ == seq!['.'] {
                        assert(c@[0] == '.');
                    }
                    if c@[0] == '.' {
                        assert(c@ =~= seq!['.']);
                    }
                }
            } else {
                assert(c@ != seq!['.']) by {
                    assert(c@.len() != 1);
                }
            }
        }
        if c.len() > 0 && !dot {
            last = Some(i);
        }
        i += 1;
    }
    assert(pv.take(parts.len() as int) == pv);
    match last {
        None => None,
        Some(k) => {
            let name = &parts[k];
            if name.len() == 2 && name[0] == '.' && name[1] == '.' {
                assert(name@ =~= seq!['.', '.']);
                None
            } else {
                proof {
                    if name@ == seq!['.', '.'] {
                        assert(name@[0] == '.' && name@[1] == '.');
                    }
                }
                Some(crate::text::copy_chars(name))
            }
        },
    }
}

fn path_extension_exec(p: &[char]) -> (r: Option<Vec<char>>)
    ensures
        match r {
            Some(e) => path_extension(p@) == Some(e@),
            None => path_extension(p@) is None,
        },
{
    match file_name_exec(p) {
        Some(n) => extension_of_name(&n),
        None => None,
    }
}

/// The stem of a file name (`Path::file_stem`): the name up to its last
/// `.`, or the whole name when it has none or only a leading one.
pub open spec fn name_stem(name: Seq<char>) -> Seq<char> {
    match last_dot(name) {
        Some(i) => if i == 0 {
            name
        } else {
            name.take(i)
        },
        None => name,
    }
}

pub open spec fn path_stem(p: Seq<char>) -> Option<Seq<char>> {
    match file_name(p) {
        Some(n) => Some(name_stem(n)),
        None => None,
    }
}

pub(crate) fn path_stem_exec(p: &[char]) -> (r: Option<Vec<char>>)
    ensures
        match r {
            Some(e) => path_stem(p@) == Some(e@),
            None => path_stem(p@) is None,
        },
{
    match file_name_exec(p) {
        Some(n) => match last_dot_exec(&n) {
            Some(i) => if i == 0 {
                Some(n)
            } else {
                Some(crate::text::slice(&n, 0, i))
            },
            None => Some(n),
        },
        None => None,
    }
}

/// Sanitize a user-supplied attachment filename: keep only the final path
/// component, turn anything but letters, digits, `.`, `_`, `-`, `+` into `-`,
/// collapse `-` runs, and strip leading/trailing `.`/`-`. When the result has
/// no extension, `keep_ext_of`'s extension (if any) is appended. `None` when
/// nothing usable is left.
pub fn attachment_name(raw: &str, keep_ext_of: &str) -> (r: Option<String>)
    ensures
        match r {
            Some(n) => attachment_name_spec(raw@, keep_ext_of@) == Some(n@),
            None => attachment_name_spec(raw@, keep_ext_of@) is None,
        },
{
    let base = last_component_exec(&trim(&chars_of(raw)));
    let out = strip_ends(&sanitize(&base));
    if out.len() == 0 {
        return None;
    }
    if path_extension_exec(&out).is_none() {
        if let Some(ext) = path_extension_exec(&chars_of(keep_ext_of)) {
            let mut full = crate::text::copy_chars(&out);
            full.push('.');
            crate::text::push_all(&mut full, &ext);
            return Some(string_of(&full));
        }
    }
    Some(string_of(&out))
}

} // verus!
