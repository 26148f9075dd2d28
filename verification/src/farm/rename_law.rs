//! What a rename leaves of the old ids in titles.

use vstd::prelude::*;
use crate::model::{TaskView, tviews};
use crate::refs::{ref_char, run_end, lemma_run_end, renamed, rewrite_from};
use crate::farm::Farm;
use crate::farm::rename::{RenameOutcome, renamed_as, after_rename, next_task, touched, edit_fields};

verus! {

/// `s[i..e]` is a whole reference token: a maximal run of reference chars.
pub open spec fn token_at(s: Seq<char>, i: int, e: int) -> bool {
    &&& 0 <= i < e <= s.len()
    &&& forall|j: int| i <= j < e ==> ref_char(#[trigger] s[j])
    &&& (i == 0 || !ref_char(s[i - 1]))
    &&& (e == s.len() || !ref_char(s[e]))
}

/// No whole reference token of `s` is an id that `pv` renames.
pub open spec fn no_old_token(s: Seq<char>, pv: Seq<(Seq<char>, Seq<char>)>) -> bool {
    forall|i: int, e: int| #[trigger] token_at(s, i, e) ==> renamed(pv, s.subrange(i, e)) is None
}

/// New ids that read as one token and are not themselves renamed.
pub open spec fn new_ids_ok(pv: Seq<(Seq<char>, Seq<char>)>) -> bool {
    forall|k: int|
        0 <= k < pv.len() ==> {
            let n = (#[trigger] pv[k]).1;
            &&& n.len() > 0
            &&& forall|j: int| 0 <= j < n.len() ==> ref_char(n[j])
            &&& renamed(pv, n) is None
        }
}

proof fn lemma_renamed_is_new(pv: Seq<(Seq<char>, Seq<char>)>, id: Seq<char>)
    ensures
        renamed(pv, id) matches Some(n) ==> exists|k: int| 0 <= k < pv.len() && (#[trigger] pv[k]).1 == n,
    decreases pv.len(),
{
    if pv.len() > 0 && pv[0].0 != id {
        lemma_renamed_is_new(pv.drop_first(), id);
        if renamed(pv, id) is Some {
            let k = choose|k: int| 0 <= k < pv.drop_first().len() && (#[trigger] pv.drop_first()[k]).1 == renamed(pv, id)->0;
            assert(pv[k + 1] == pv.drop_first()[k]);
        }
    }
}

/// A rewrite leaves no whole token that is an old id, and it starts with a
/// reference char exactly when the text does at `i`.
proof fn lemma_rewrite_clean(s: Seq<char>, i: int, pv: Seq<(Seq<char>, Seq<char>)>)
    requires
        0 <= i <= s.len(),
        new_ids_ok(pv),
    ensures
        no_old_token(rewrite_from(s, i, pv).0, pv),
        i < s.len() ==> rewrite_from(s, i, pv).0.len() > 0 && (ref_char(rewrite_from(s, i, pv).0[0])
            == ref_char(s[i])),
    decreases s.len() - i,
{
    let o = rewrite_from(s, i, pv).0;
    if i < s.len() {
        if !ref_char(s[i]) {
            lemma_rewrite_clean(s, i + 1, pv);
            let r = rewrite_from(s, i + 1, pv).0;
            assert(o == seq![s[i]] + r);
            assert forall|a: int, b: int| #[trigger] token_at(o, a, b) implies renamed(pv, o.subrange(a, b)) is None by {
                assert(o[0] == s[i]);
                assert(a >= 1) by {
                    if a == 0 {
                        assert(ref_char(o[0]));
                    }
                }
                assert forall|j: int| a - 1 <= j < b - 1 implies ref_char(#[trigger] r[j]) by {
                    assert(o[j + 1] == r[j]);
                    assert(ref_char(o[j + 1]));
                }
                if a - 1 > 0 {
                    assert(o[a - 1] == r[a - 2]);
                }
                if b - 1 < r.len() {
                    assert(o[b] == r[b - 1]);
                }
                assert(token_at(r, a - 1, b - 1));
                assert(o.subrange(a, b) =~= r.subrange(a - 1, b - 1));
            }
        } else {
            lemma_run_end(s, i);
            let e = run_end(s, i);
            assert(e > i);
            let tok = s.subrange(i, e);
            lemma_rewrite_clean(s, e, pv);
            let r = rewrite_from(s, e, pv).0;
            let x = match renamed(pv, tok) {
                Some(n) => n,
                None => tok,
            };
            assert(o == x + r);
            // x is one run of reference chars that is no old id
            lemma_renamed_is_new(pv, tok);
            assert(x.len() > 0 && (forall|j: int| 0 <= j < x.len() ==> ref_char(x[j])) && renamed(pv, x) is None) by {
                if renamed(pv, tok) is Some {
                    let k = choose|k: int| 0 <= k < pv.len() && (#[trigger] pv[k]).1 == renamed(pv, tok)->0;
                    assert(new_ids_ok(pv));
                    let n = pv[k].1;
                    assert(n.len() > 0);
                } else {
                    assert forall|j: int| 0 <= j < x.len() implies ref_char(x[j]) by {
                        assert(x[j] == s[i + j]);
                    }
                }
            }
            let xl = x.len() as int;
            assert(r.len() > 0 ==> !ref_char(r[0])) by {
                if r.len() > 0 {
                    assert(e < s.len());
                }
            }
            assert forall|a: int, b: int| #[trigger] token_at(o, a, b) implies renamed(pv, o.subrange(a, b)) is None by {
                if a < xl {
                    assert(b <= xl) by {
                        if b > xl {
                            assert(ref_char(o[xl]));
                            assert(o[xl] == r[0]);
                        }
                    }
                    assert(a == 0) by {
                        if a > 0 {
                            assert(o[a - 1] == x[a - 1]);
                        }
                    }
                    assert(b == xl) by {
                        if b < xl {
                            assert(o[b] == x[b]);
                        }
                    }
                    assert(o.subrange(a, b) =~= x);
                } else {
                    assert(a > xl) by {
                        if a == xl {
                            assert(ref_char(o[a]));
                            assert(o[xl] == r[0]);
                        }
                    }
                    assert forall|j: int| a - xl <= j < b - xl implies ref_char(#[trigger] r[j]) by {
                        assert(o[j + xl] == r[j]);
                        assert(ref_char(o[j + xl]));
                    }
                    assert(o[a - 1] == r[a - xl - 1]);
                    if b - xl < r.len() {
                        assert(o[b] == r[b - xl]);
                    }
                    assert(token_at(r, a - xl, b - xl));
                    assert(o.subrange(a, b) =~= r.subrange(a - xl, b - xl));
                }
            }
            assert(o[0] == x[0]);
        }
    } else {
        assert(o == Seq::<char>::empty());
        assert forall|a: int, b: int| #[trigger] token_at(o, a, b) implies renamed(pv, o.subrange(a, b)) is None by {}
    }
}

/// A rewrite that changes nothing gives the text back.
proof fn lemma_rewrite_unchanged(s: Seq<char>, i: int, pv: Seq<(Seq<char>, Seq<char>)>)
    requires
        0 <= i <= s.len(),
    ensures
        !rewrite_from(s, i, pv).1 ==> rewrite_from(s, i, pv).0 == s.skip(i),
    decreases s.len() - i,
{
    if i < s.len() {
        if !ref_char(s[i]) {
            lemma_rewrite_unchanged(s, i + 1, pv);
            assert(seq![s[i]] + s.skip(i + 1) =~= s.skip(i));
        } else {
            lemma_run_end(s, i);
            let e = run_end(s, i);
            lemma_rewrite_unchanged(s, e, pv);
            assert(s.subrange(i, e) + s.skip(e) =~= s.skip(i));
        }
    } else {
        assert(s.skip(i) =~= Seq::<char>::empty());
    }
}

/// A rename rewrites every whole token of a title that is an old id: what
/// the renamed task's title holds names no old id, and a task whose title
/// held one is touched and lists `title` among its edited fields.
pub proof fn rename_rewrites_old_ids_in_titles(t: TaskView, pv: Seq<(Seq<char>, Seq<char>)>)
    requires
        new_ids_ok(pv),
    ensures
        no_old_token(after_rename(t, pv).title, pv),
        !no_old_token(t.title, pv) ==> touched(t, pv) && edit_fields(t, pv).contains("title"@),
{
    lemma_rewrite_clean(t.title, 0, pv);
    lemma_rewrite_unchanged(t.title, 0, pv);
    assert(t.title.skip(0) =~= t.title);
    if rewrite_from(t.title, 0, pv).1 {
        let f = edit_fields(t, pv);
        let a = (if crate::farm::rename::parent_moves(t, pv) { seq!["parent"@] } else { seq![] }) + (if crate::farm::rename::deps_move(t, pv) {
            seq!["depends_on"@]
        } else {
            seq![]
        });
        let b = a + seq!["title"@];
        assert(b[a.len() as int] == "title"@);
        assert(f == b + (if crate::farm::rename::changed_lines(
            crate::text::lines_seq(t.body),
            pv,
            crate::text::lines_seq(t.body).len() as int,
        ).len() > 0 {
            seq!["body"@]
        } else {
            seq![]
        }));
        assert(f[a.len() as int] == "title"@);
        assert(f.len() > 0);
    }
}

/// After a real rename, no task's title names an old id as a whole token.
pub proof fn renamed_titles_name_no_old_id(before: Farm, after: Farm, pv: Seq<(Seq<char>, Seq<char>)>, r: RenameOutcome)
    requires
        renamed_as(before, after, pv, false, r),
        r is Done,
        new_ids_ok(pv),
    ensures
        forall|k: int| 0 <= k < after.tasks@.len() ==> no_old_token(#[trigger] tviews(after.tasks@)[k].title, pv),
{
    broadcast use vstd::seq_lib::group_to_multiset_ensures;
    let tv = tviews(before.tasks@);
    let av = tviews(after.tasks@);
    let mv = tv.map_values(|t: TaskView| after_rename(t, pv));
    assert(crate::farm::rename::refusal(tv.map_values(|t: TaskView| t.id), pv) is None);
    assert(av.to_multiset() == mv.to_multiset());
    av.to_multiset_ensures();
    mv.to_multiset_ensures();
    assert forall|k: int| 0 <= k < after.tasks@.len() implies no_old_token(#[trigger] tviews(after.tasks@)[k].title, pv) by {
        assert(av.contains(av[k]));
        assert(av.to_multiset().count(av[k]) > 0);
        assert(mv.contains(av[k]));
        let j = choose|j: int| 0 <= j < mv.len() && mv[j] == av[k];
        rename_rewrites_old_ids_in_titles(tv[j], pv);
    }
}

} // verus!
