//! What the tracker of a GitHub issue URL reads as.

use vstd::prelude::*;
use crate::text::{is_ws, is_digit, is_lower, is_upper, first_from, occurs_at, lemma_first_from, starts_with};
use crate::rollup::{
    ascii_ws, seg_end, digits_end, alnum_end, jira_spec, linear_spec, github_spec, tracker_spec,
};

verus! {

/// A GitHub path segment: not empty, no `/`, no ASCII white space.
pub open spec fn segment_ok(x: Seq<char>) -> bool {
    &&& x.len() > 0
    &&& forall|j: int| 0 <= j < x.len() ==> x[j] != '/' && !ascii_ws(#[trigger] x[j])
}

/// An issue number: a non-empty run of ASCII digits.
pub open spec fn number_ok(n: Seq<char>) -> bool {
    n.len() > 0 && forall|j: int| 0 <= j < n.len() ==> is_digit(#[trigger] n[j])
}

/// `https://github.com/<owner>/<repo>/issues/<n>`.
pub open spec fn issue_url(owner: Seq<char>, repo: Seq<char>, n: Seq<char>) -> Seq<char> {
    "https://github.com/"@ + owner + "/"@ + repo + "/issues/"@ + n
}

proof fn lemma_seg_run(s: Seq<char>, i: int, k: int)
    requires
        0 <= i <= k <= s.len(),
        forall|j: int| i <= j < k ==> s[j] != '/' && !ascii_ws(s[j]),
        k == s.len() || s[k] == '/',
    ensures
        seg_end(s, i) == k,
    decreases k - i,
{
    if i < k {
        lemma_seg_run(s, i + 1, k);
    }
}

proof fn lemma_digits_run(s: Seq<char>, i: int)
    requires
        0 <= i <= s.len(),
        forall|j: int| i <= j < s.len() ==> is_digit(s[j]),
    ensures
        digits_end(s, i) == s.len(),
    decreases s.len() - i,
{
    if i < s.len() {
        lemma_digits_run(s, i + 1);
    }
}

proof fn lemma_occ(u: Seq<char>, p: Seq<char>, idx: int, m: int)
    requires
        occurs_at(u, p, idx),
        0 <= m < p.len(),
    ensures
        u[idx + m] == p[m],
{
    assert(u.subrange(idx, idx + p.len())[m] == u[idx + m]);
}

/// Where the URL's chars come from, and where its slashes are.
proof fn lemma_url_chars(owner: Seq<char>, repo: Seq<char>, n: Seq<char>)
    requires
        segment_ok(owner),
        segment_ok(repo),
        number_ok(n),
    ensures
        ({
            let u = issue_url(owner, repo, n);
            let p1: int = 19 + owner.len() as int;
            let p2: int = p1 + 1 + repo.len() as int;
            let p3: int = p2 + 7;
            &&& u.len() == p3 + 1 + n.len()
            &&& forall|k: int| 0 <= k < 19 ==> u[k] == "https://github.com/"@[k]
            &&& forall|k: int| 19 <= k < p1 ==> u[k] == owner[k - 19]
            &&& u[p1] == '/'
            &&& forall|k: int| p1 < k < p2 ==> u[k] == repo[k - p1 - 1]
            &&& forall|k: int| p2 <= k <= p3 ==> u[k] == "/issues/"@[k - p2]
            &&& forall|k: int| p3 < k < u.len() ==> u[k] == n[k - p3 - 1]
            &&& forall|k: int| 0 <= k < u.len() ==> (u[k] == '/' <==> (k == 6 || k == 7 || k == 18 || k == p1 || k == p2 || k == p3))
        }),
{
    reveal_strlit("https://github.com/");
    reveal_strlit("/");
    reveal_strlit("/issues/");
    let u = issue_url(owner, repo, n);
    let h = "https://github.com/"@;
    let p1: int = 19 + owner.len() as int;
    let p2: int = p1 + 1 + repo.len() as int;
    let p3: int = p2 + 7;
    assert forall|k: int| 0 <= k < u.len() implies (u[k] == '/' <==> (k == 6 || k == 7 || k == 18 || k == p1 || k == p2 || k == p3)) by {
        if k < 19 {
            assert(u[k] == h[k]);
        } else if k < p1 {
            assert(u[k] == owner[k - 19]);
        } else if k == p1 {
        } else if k < p2 {
            assert(u[k] == repo[k - p1 - 1]);
        } else if k <= p3 {
            assert(u[k] == "/issues/"@[k - p2]);
        } else {
            assert(u[k] == n[k - p3 - 1]);
            assert(is_digit(n[k - p3 - 1]));
        }
    }
}

proof fn lemma_jira_none(owner: Seq<char>, repo: Seq<char>, n: Seq<char>)
    requires
        segment_ok(owner),
        segment_ok(repo),
        number_ok(n),
    ensures
        jira_spec(issue_url(owner, repo, n)) is None,
{
    reveal_strlit("atlassian.net/browse/");
    reveal_strlit("https://github.com/");
    reveal_strlit("/issues/");
    let u = issue_url(owner, repo, n);
    let pat = "atlassian.net/browse/"@;
    lemma_url_chars(owner, repo, n);
    lemma_first_from(u, pat, 0);
    let p1: int = 19 + owner.len() as int;
    let p2: int = p1 + 1 + repo.len() as int;
    let p3: int = p2 + 7;
    match first_from(u, pat, 0) {
        None => {},
        Some(idx) => {
            lemma_occ(u, pat, idx, 20);
            lemma_occ(u, pat, idx, 13);
            lemma_occ(u, pat, idx, 0);
            lemma_occ(u, pat, idx, 14);
            let q = idx + 20;
            assert(u[q] == '/');
            assert(u[idx + 13] == '/');
            if q == p1 {
                assert(idx + 13 == 18);
                assert(u[5] == ':');
            } else if q == p3 {
                assert(u[idx + 14] == u[p2 + 1]);
                assert(u[p2 + 1] == 'i');
            } else {
                assert(q == p2);
                let rest = u.skip(idx + 21);
                assert(rest[0] == u[p2 + 1]);
                assert(u[p2 + 1] == 'i');
                assert(!is_upper('i'));
            }
        },
    }
}

proof fn lemma_linear_none(owner: Seq<char>, repo: Seq<char>, n: Seq<char>)
    requires
        segment_ok(owner),
        segment_ok(repo),
        number_ok(n),
    ensures
        linear_spec(issue_url(owner, repo, n)) is None,
{
    reveal_strlit("linear.app/");
    reveal_strlit("/issue/");
    reveal_strlit("https://github.com/");
    reveal_strlit("/issues/");
    let u = issue_url(owner, repo, n);
    let lp = "linear.app/"@;
    let ip = "/issue/"@;
    lemma_url_chars(owner, repo, n);
    let p1: int = 19 + owner.len() as int;
    let p2: int = p1 + 1 + repo.len() as int;
    let p3: int = p2 + 7;
    lemma_first_from(u, lp, 0);
    match first_from(u, lp, 0) {
        None => {},
        Some(li) => {
            lemma_occ(u, lp, li, 0);
            assert(li >= 19) by {
                if li < 19 {
                    assert(u[li] == "https://github.com/"@[li]);
                }
            }
            let after = u.skip(li);
            lemma_first_from(after, ip, 0);
            match first_from(after, ip, 0) {
                None => {},
                Some(ii) => {
                    let q = li + ii;
                    assert(occurs_at(u, ip, q)) by {
                        assert(u.subrange(q, q + 7) =~= after.subrange(ii, ii + 7));
                    }
                    lemma_occ(u, ip, q, 0);
                    lemma_occ(u, ip, q, 6);
                    lemma_occ(u, ip, q, 1);
                    assert(u[q] == '/' && u[q + 6] == '/');
                    // the only slashes six apart around a segment are p1 and p2
                    if q == p2 {
                        assert(u[q + 6] == u[p2 + 6]);
                        assert(u[p2 + 6] == 's');
                    } else if q == p3 {
                        assert(u[q + 1] == n[0]);
                        assert(is_digit(n[0]));
                    } else {
                        assert(q == p1);
                        let rest = after.skip(ii + 7);
                        assert(rest =~= u.skip(p2 + 1));
                        assert forall|j: int| 0 <= j < 6 implies rest[j] == "issues"@[j] by {
                            reveal_strlit("issues");
                            assert(rest[j] == u[p2 + 1 + j]);
                            assert(u[p2 + 1 + j] == "/issues/"@[j + 1]);
                        }
                        reveal_strlit("issues");
                        assert(rest[6] == '/') by {
                            assert(rest[6] == u[p2 + 7]);
                        }
                        assert(alnum_end(rest, 6) == 6);
                        assert(alnum_end(rest, 5) == 6);
                        assert(alnum_end(rest, 4) == 6);
                        assert(alnum_end(rest, 3) == 6);
                        assert(alnum_end(rest, 2) == 6);
                        assert(alnum_end(rest, 1) == 6);
                        assert(alnum_end(rest, 0) == 6);
                    }
                },
            }
        },
    }
}

/// A GitHub issue URL reads as a GitHub issue keyed `owner/repo#n`, for
/// every owner and repo made of chars other than `/` and ASCII white space
/// (hyphens, dots and the like included) and every issue number.
pub proof fn github_issue_urls_key_as_owner_repo_number(owner: Seq<char>, repo: Seq<char>, n: Seq<char>)
    requires
        segment_ok(owner),
        segment_ok(repo),
        number_ok(n),
    ensures
        tracker_spec(issue_url(owner, repo, n)) == ("github"@, Some(owner + "/"@ + repo + "#"@ + n)),
{
    reveal_strlit("https://github.com/");
    reveal_strlit("/issues/");
    reveal_strlit("github.com/");
    reveal_strlit("/");
    reveal_strlit("#");
    let u = issue_url(owner, repo, n);
    lemma_url_chars(owner, repo, n);
    let p1: int = 19 + owner.len() as int;
    let p2: int = p1 + 1 + repo.len() as int;
    let p3: int = p2 + 7;
    // no white space at either end
    assert(u[0] == 'h');
    assert(u.last() == n.last()) by {
        assert(u[u.len() - 1] == n[n.len() - 1]);
    }
    assert(is_digit(n[n.len() - 1]));
    crate::store::roundtrip::lemma_trim_id(u);
    lemma_jira_none(owner, repo, n);
    lemma_linear_none(owner, repo, n);
    // github.com/ first occurs after the scheme
    let gp = "github.com/"@;
    assert(occurs_at(u, gp, 8)) by {
        assert(u.subrange(8, 19) =~= gp);
    }
    assert forall|j: int| 0 <= j < 8 implies !occurs_at(u, gp, j) by {
        if occurs_at(u, gp, j) {
            lemma_occ(u, gp, j, 0);
            assert(u[j] == "https://github.com/"@[j]);
        }
    }
    lemma_first_from(u, gp, 0);
    assert(first_from(u, gp, 0) == Some(8int));
    let rest = u.skip(19);
    let o = owner.len() as int;
    assert(rest =~= owner + "/"@ + repo + "/issues/"@ + n);
    assert forall|j: int| 0 <= j < o implies rest[j] != '/' && !ascii_ws(rest[j]) by {
        assert(rest[j] == owner[j]);
    }
    lemma_seg_run(rest, 0, o);
    let r: int = o + 1 + repo.len() as int;
    assert forall|j: int| o + 1 <= j < r implies rest[j] != '/' && !ascii_ws(rest[j]) by {
        assert(rest[j] == repo[j - o - 1]);
    }
    assert(rest[r] == '/');
    lemma_seg_run(rest, o + 1, r);
    let tail = rest.skip(r);
    assert(tail =~= "/issues/"@ + n);
    assert(starts_with(tail, "/issues/"@)) by {
        assert(tail.subrange(0, 8) =~= "/issues/"@);
    }
    assert forall|j: int| 8 <= j < tail.len() implies is_digit(tail[j]) by {
        assert(tail[j] == n[j - 8]);
    }
    lemma_digits_run(tail, 8);
    assert(rest.take(o) =~= owner);
    assert(rest.subrange(o + 1, r) =~= repo);
    assert(tail.subrange(8, tail.len() as int) =~= n);
    assert(github_spec(u) == Some(owner + seq!['/'] + repo + seq!['#'] + n));
    assert(owner + "/"@ + repo + "#"@ + n =~= owner + seq!['/'] + repo + seq!['#'] + n);
}

} // verus!
