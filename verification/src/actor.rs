//! Who a note or block is attributed to. One precedence serves every
//! surface: an explicit value wins, then the environment's `YAKS_ACTOR`, then
//! the git `user.name`; `None` writes a bare, unattributed note.

use vstd::prelude::*;
use crate::text::{trim_str, trim_seq, string_of};
use crate::model::ostr;

verus! {

/// Trimmed, or `None` when nothing but white space is left.
pub open spec fn cleaned(s: Seq<char>) -> Option<Seq<char>> {
    if trim_seq(s).len() == 0 {
        None
    } else {
        Some(trim_seq(s))
    }
}

/// A candidate that may be absent, cleaned.
pub open spec fn candidate(o: Option<&str>) -> Option<Seq<char>> {
    match o {
        Some(s) => cleaned(s@),
        None => None,
    }
}

/// Trim to a non-empty owned string, or `None`.
pub fn clean(s: &str) -> (r: Option<String>)
    ensures
        ostr(r) == cleaned(s@),
{
    let t = trim_str(s);
    if t.len() == 0 {
        None
    } else {
        Some(string_of(&t))
    }
}

fn clean_opt(o: Option<&str>) -> (r: Option<String>)
    ensures
        ostr(r) == candidate(o),
{
    match o {
        Some(s) => clean(s),
        None => None,
    }
}

/// The precedence: the explicit value, else the environment's, each only
/// when it has more than white space; else whatever `git` gives, which is
/// asked only then.
pub fn resolve_with<F: FnOnce() -> Option<String>>(explicit: Option<&str>, env: Option<&str>, git: F) -> (r:
    Option<String>)
    requires
        call_requires(git, ()),
    ensures
        candidate(explicit) is Some ==> ostr(r) == candidate(explicit),
        candidate(explicit) is None && candidate(env) is Some ==> ostr(r) == candidate(env),
        candidate(explicit) is None && candidate(env) is None ==> call_ensures(git, (), r),
{
    let e = clean_opt(explicit);
    if e.is_some() {
        return e;
    }
    let v = clean_opt(env);
    if v.is_some() {
        return v;
    }
    git()
}

} // verus!
