//! What an inline frontmatter list reads back as.

use vstd::prelude::*;
use crate::text::{is_ws, trim_seq, trim_start_seq, trim_end_seq, split_seq, join_seq, lemma_split_step, lemma_split_none};
use crate::store::read::{inline_list_spec, unquote_spec};

verus! {

/// An item that an inline list holds as written: not empty, no white space
/// at its ends, no comma, and not opening with a quote.
pub open spec fn plain_item(x: Seq<char>) -> bool {
    &&& x.len() > 0
    &&& !is_ws(x[0]) && !is_ws(x.last())
    &&& forall|j: int| 0 <= j < x.len() ==> x[j] != ','
    &&& x[0] != '"' && x[0] != '\''
}

/// The pieces a comma split gives of `pre + join(xs, ", ")`: the first item
/// after `pre`, then each other item after a space.
proof fn lemma_split_joined(pre: Seq<char>, xs: Seq<Seq<char>>)
    requires
        xs.len() > 0,
        forall|j: int| 0 <= j < pre.len() ==> pre[j] != ',',
        forall|k: int| 0 <= k < xs.len() ==> plain_item(#[trigger] xs[k]),
    ensures
        split_seq(pre + join_seq(xs, seq![',', ' ']), ',') == seq![pre + xs[0]] + xs.drop_first().map_values(
            |x: Seq<char>| seq![' '] + x,
        ),
    decreases xs.len(),
{
    assert(plain_item(xs[0]));
    let a = pre + xs[0];
    if xs.len() == 1 {
        assert(join_seq(xs, seq![',', ' ']) == xs[0]);
        assert forall|j: int| 0 <= j < a.len() implies a[j] != ',' by {
            if j >= pre.len() {
                assert(a[j] == xs[0][j - pre.len()]);
            }
        }
        lemma_split_none(a, ',');
        assert(xs.drop_first().map_values(|x: Seq<char>| seq![' '] + x) =~= Seq::<Seq<char>>::empty());
        assert(seq![a] + Seq::<Seq<char>>::empty() =~= seq![a]);
    } else {
        let rest = xs.drop_first();
        let s = pre + join_seq(xs, seq![',', ' ']);
        assert(s =~= a + seq![','] + (seq![' '] + join_seq(rest, seq![',', ' '])));
        let i = a.len() as int;
        assert(s[i] == ',');
        assert forall|j: int| 0 <= j < i implies s[j] != ',' by {
            if j >= pre.len() {
                assert(s[j] == xs[0][j - pre.len()]);
            } else {
                assert(s[j] == pre[j]);
            }
        }
        lemma_split_step(s, ',', i);
        assert(s.take(i) =~= a);
        assert(s.skip(i + 1) =~= seq![' '] + join_seq(rest, seq![',', ' ']));
        assert forall|k: int| 0 <= k < rest.len() implies plain_item(#[trigger] rest[k]) by {
            assert(rest[k] == xs[k + 1]);
        }
        lemma_split_joined(seq![' '], rest);
        assert(seq![' '] + rest[0] == rest.map_values(|x: Seq<char>| seq![' '] + x)[0]);
        assert(seq![seq![' '] + rest[0]] + rest.drop_first().map_values(|x: Seq<char>| seq![' '] + x)
            =~= rest.map_values(|x: Seq<char>| seq![' '] + x));
        assert(seq![a] + (seq![seq![' '] + rest[0]] + rest.drop_first().map_values(|x: Seq<char>| seq![' '] + x))
            =~= seq![a] + rest.map_values(|x: Seq<char>| seq![' '] + x));
    }
}

proof fn lemma_unquote_item(x: Seq<char>, sp: bool)
    requires
        plain_item(x),
    ensures
        unquote_spec(if sp { seq![' '] + x } else { x }) == x,
{
    let y = if sp { seq![' '] + x } else { x };
    assert(is_ws(' '));
    if sp {
        assert(y[0] == ' ');
        assert(y.drop_first() =~= x);
        assert(trim_start_seq(y) == trim_start_seq(x));
    }
    assert(trim_start_seq(x) == x);
    assert(trim_end_seq(x) == x);
    assert(trim_seq(y) == x);
    assert(trim_seq(x) == x);
}

proof fn lemma_filter_all<A>(s: Seq<A>, p: spec_fn(A) -> bool)
    requires
        forall|k: int| 0 <= k < s.len() ==> p(#[trigger] s[k]),
    ensures
        s.filter(p) == s,
    decreases s.len(),
{
    if s.len() > 0 {
        let d = s.drop_last();
        assert forall|k: int| 0 <= k < d.len() implies p(#[trigger] d[k]) by {
            assert(d[k] == s[k]);
        }
        lemma_filter_all(d, p);
        assert(p(s[s.len() - 1]));
        d.lemma_filter_push(s.last(), p);
        assert(s =~= d.push(s.last()));
    }
}

/// An inline list reads back as its items: `[a, b, c]` written from plain
/// items (no surrounding white space, no comma, no opening quote) gives
/// exactly those items, in order; `[]` gives none.
pub proof fn inline_list_reads_back(xs: Seq<Seq<char>>)
    requires
        forall|k: int| 0 <= k < xs.len() ==> plain_item(#[trigger] xs[k]),
    ensures
        inline_list_spec(seq!['['] + join_seq(xs, seq![',', ' ']) + seq![']']) == Some(xs),
{
    let v = seq!['['] + join_seq(xs, seq![',', ' ']) + seq![']'];
    let inner = join_seq(xs, seq![',', ' ']);
    assert(v.subrange(1, v.len() - 1) =~= inner);
    let f = |p: Seq<char>| unquote_spec(p);
    let keep = |p: Seq<char>| p.len() > 0;
    if xs.len() == 0 {
        lemma_split_none(inner, ',');
        assert(inner =~= Seq::<char>::empty());
        let m = split_seq(inner, ',').map_values(f);
        assert(m =~= seq![unquote_spec(Seq::<char>::empty())]);
        assert(trim_start_seq(Seq::<char>::empty()) == Seq::<char>::empty());
        assert(unquote_spec(Seq::<char>::empty()) == Seq::<char>::empty());
        reveal_with_fuel(Seq::filter, 2);
        assert(m.filter(keep) =~= Seq::<Seq<char>>::empty());
    } else {
        assert(Seq::<char>::empty() + inner =~= inner);
        lemma_split_joined(Seq::<char>::empty(), xs);
        let pieces = split_seq(inner, ',');
        assert(pieces == seq![xs[0]] + xs.drop_first().map_values(|x: Seq<char>| seq![' '] + x)) by {
            assert(Seq::<char>::empty() + xs[0] =~= xs[0]);
        }
        let m = pieces.map_values(f);
        assert forall|k: int| 0 <= k < xs.len() implies m[k] == xs[k] by {
            assert(plain_item(xs[k]));
            if k == 0 {
                assert(pieces[0] == xs[0]);
                lemma_unquote_item(xs[0], false);
            } else {
                assert(pieces[k] == seq![' '] + xs[k]);
                lemma_unquote_item(xs[k], true);
            }
        }
        assert(m =~= xs);
        lemma_filter_all(m, keep);
    }
}

} // verus!
