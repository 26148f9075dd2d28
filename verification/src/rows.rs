//! One-line renderings of a task for the command line's listings.

use vstd::prelude::*;
use crate::text::{chars_of, string_of, push_str, push_all, join, join_seq, pad_right, padded_to};
use crate::model::{Task, TaskView, status_glyph, strs};
use crate::store::write::{dec, dec_spec};

verus! {

/// ` [a,b]` for labels, nothing when there are none.
pub open spec fn labels_part(labels: Seq<Seq<char>>) -> Seq<char> {
    if labels.len() == 0 {
        seq![]
    } else {
        " ["@ + join_seq(labels, ","@) + "]"@
    }
}

/// ` (deps: a,b)` for dependencies, nothing when there are none.
pub open spec fn deps_part(deps: Seq<Seq<char>>) -> Seq<char> {
    if deps.len() == 0 {
        seq![]
    } else {
        " (deps: "@ + join_seq(deps, ","@) + ")"@
    }
}

/// ` ⚠ needs:<who>` for a needs-blocked yak, nothing for a ready one.
pub open spec fn needs_part(needs: Option<Seq<char>>) -> Seq<char> {
    match needs {
        Some(who) => " \u{26a0} needs:"@ + who,
        None => seq![],
    }
}

/// `  id  pN type     title`: the id, priority, type padded to eight columns,
/// and title.
pub open spec fn plain_row_spec(t: TaskView) -> Seq<char> {
    "  "@ + t.id + "  p"@ + dec_spec(t.priority as nat) + " "@ + pad_right(t.kind, 8) + " "@ + t.title
}

/// `  [X] id  pN type     title [labels] (deps: ...) ⚠ needs:<who>`.
pub open spec fn row_spec(t: TaskView) -> Seq<char> {
    "  ["@ + seq![status_glyph(t.status)] + "] "@ + t.id + "  p"@ + dec_spec(t.priority as nat) + " "@
        + pad_right(t.kind, 8) + " "@ + t.title + labels_part(t.labels) + deps_part(t.depends_on)
        + needs_part(t.needs)
}

fn joined(v: &Vec<String>, sep: &str) -> (r: Vec<char>)
    ensures
        r@ == join_seq(strs(v@), sep@),
{
    let mut pieces: Vec<Vec<char>> = Vec::new();
    let mut i: usize = 0;
    while i < v.len()
        invariant
            i <= v.len(),
            pieces@.map_values(|p: Vec<char>| p@) == strs(v@).take(i as int),
        decreases v.len() - i,
    {
        let ghost before = pieces@;
        let c = chars_of(v[i].as_str());
        pieces.push(c);
        assert(pieces@.map_values(|p: Vec<char>| p@) =~= before.map_values(|p: Vec<char>| p@).push(c@));
        assert(strs(v@).take(i + 1) =~= strs(v@).take(i as int).push(v@[i as int]@));
        i += 1;
    }
    assert(strs(v@).take(v.len() as int) =~= strs(v@));
    join(&pieces, &chars_of(sep))
}

/// The row of a listing, with its status glyph, labels, dependencies and any
/// needs block.
pub fn fmt_row(t: &Task) -> (r: String)
    ensures
        r@ == row_spec(t@),
{
    let mut out = chars_of("  [");
    out.push(t.status.glyph());
    push_str(&mut out, "] ");
    push_str(&mut out, t.id.as_str());
    push_str(&mut out, "  p");
    push_all(&mut out, &dec(t.priority as u64));
    push_str(&mut out, " ");
    push_all(&mut out, &padded_to(t.kind.as_str(), 8));
    push_str(&mut out, " ");
    push_str(&mut out, t.title.as_str());
    let ghost upto = out@;
    if t.labels.len() > 0 {
        push_str(&mut out, " [");
        push_all(&mut out, &joined(&t.labels, ","));
        push_str(&mut out, "]");
    }
    let ghost with_labels = out@;
    assert(with_labels =~= upto + labels_part(t@.labels));
    if t.depends_on.len() > 0 {
        push_str(&mut out, " (deps: ");
        push_all(&mut out, &joined(&t.depends_on, ","));
        push_str(&mut out, ")");
    }
    let ghost with_deps = out@;
    assert(with_deps =~= with_labels + deps_part(t@.depends_on));
    match &t.needs {
        Some(who) => {
            push_str(&mut out, " \u{26a0} needs:");
            push_str(&mut out, who.as_str());
        },
        None => {},
    }
    assert(out@ =~= with_deps + needs_part(t@.needs));
    assert(upto =~= "  ["@ + seq![status_glyph(t@.status)] + "] "@ + t@.id + "  p"@ + dec_spec(t@.priority as nat) + " "@
        + pad_right(t@.kind, 8) + " "@ + t@.title);
    string_of(&out)
}

/// The row of a plain listing: no status glyph.
pub fn fmt_plain_row(t: &Task) -> (r: String)
    ensures
        r@ == plain_row_spec(t@),
{
    let mut out = chars_of("  ");
    push_str(&mut out, t.id.as_str());
    push_str(&mut out, "  p");
    push_all(&mut out, &dec(t.priority as u64));
    push_str(&mut out, " ");
    push_all(&mut out, &padded_to(t.kind.as_str(), 8));
    push_str(&mut out, " ");
    push_str(&mut out, t.title.as_str());
    assert(out@ =~= plain_row_spec(t@));
    string_of(&out)
}

} // verus!
