//! Where the per-farm UI state cache lives: `<cache home>/yaks/<slug>.json`,
//! the slug a stable hash of the farm's absolute root.

use vstd::prelude::*;
use crate::skills::{digest, digest_spec};
use crate::text::{chars_of, string_of, push_str, slice};

verus! {

/// The first 12 hex chars of the FNV-1a 64 digest of the root path.
pub open spec fn slug_spec(root: Seq<char>) -> Seq<char> {
    digest_spec(root).take(12)
}

/// A stable short name for a farm root.
pub fn slug(root: &str) -> (r: String)
    ensures
        r@ == slug_spec(root@),
{
    let d = chars_of(digest(root).as_str());
    proof {
        crate::stamp_law::lemma_digest_len(root@);
    }
    let s = slice(&d, 0, 12);
    assert(s@ == d@.take(12));
    string_of(&s)
}

/// The UI-state cache file of the farm at `root` (absolute) under the
/// user's cache home.
pub open spec fn ui_state_path_spec(cache_home: Seq<char>, root: Seq<char>) -> Seq<char> {
    cache_home + "/yaks/"@ + slug_spec(root) + ".json"@
}

pub fn ui_state_path(cache_home: &str, root: &str) -> (r: String)
    ensures
        r@ == ui_state_path_spec(cache_home@, root@),
{
    let mut p = chars_of(cache_home);
    push_str(&mut p, "/yaks/");
    let s = slug(root);
    push_str(&mut p, s.as_str());
    push_str(&mut p, ".json");
    string_of(&p)
}

} // verus!
