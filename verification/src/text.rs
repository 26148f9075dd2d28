//! Character-sequence helpers shared by the parsers and renderers.
//!
//! Text is handled as `Seq<char>` in specifications and as `Vec<char>` in
//! executable code; `&str`/`String` values are converted at the edges.

use vstd::prelude::*;

verus! {

pub assume_specification[ String::push ](s: &mut String, ch: char)
    ensures
        final(s)@ == old(s)@.push(ch),
;

// ---------------------------------------------------------------------------
// character classes
// ---------------------------------------------------------------------------

/// The Unicode `White_Space` property, as `char::is_whitespace` documents it.
pub open spec fn is_ws(c: char) -> bool {
    ||| ('\u{9}' <= c && c <= '\u{d}')
    ||| c == ' '
    ||| c == '\u{85}'
    ||| c == '\u{a0}'
    ||| c == '\u{1680}'
    ||| ('\u{2000}' <= c && c <= '\u{200a}')
    ||| c == '\u{2028}'
    ||| c == '\u{2029}'
    ||| c == '\u{202f}'
    ||| c == '\u{205f}'
    ||| c == '\u{3000}'
}

pub open spec fn is_lower(c: char) -> bool {
    'a' <= c && c <= 'z'
}

pub open spec fn is_upper(c: char) -> bool {
    'A' <= c && c <= 'Z'
}

pub open spec fn is_digit(c: char) -> bool {
    '0' <= c && c <= '9'
}

pub fn whitespace(c: char) -> (b: bool)
    ensures
        b == is_ws(c),
{
    ('\u{9}' <= c && c <= '\u{d}') || c == ' ' || c == '\u{85}' || c == '\u{a0}' || c == '\u{1680}'
        || ('\u{2000}' <= c && c <= '\u{200a}') || c == '\u{2028}' || c == '\u{2029}' || c
        == '\u{202f}' || c == '\u{205f}' || c == '\u{3000}'
}

pub fn upper(c: char) -> (b: bool)
    ensures
        b == is_upper(c),
{
    'A' <= c && c <= 'Z'
}

pub fn digit(c: char) -> (b: bool)
    ensures
        b == is_digit(c),
{
    '0' <= c && c <= '9'
}

// ---------------------------------------------------------------------------
// conversions
// ---------------------------------------------------------------------------

/// The characters of `s`, in order.
pub fn chars_of(s: &str) -> (v: Vec<char>)
    ensures
        v@ == s@,
{
    let mut v: Vec<char> = Vec::new();
    for c in it: s.chars()
        invariant
            v@ == it.seq().take(it.index() as int),
            it.seq() == s@,
    {
        v.push(c);
    }
    v
}

/// A `String` holding exactly the characters of `v`.
pub fn string_of(v: &[char]) -> (s: String)
    ensures
        s@ == v@,
{
    let mut s = String::new();
    let mut i: usize = 0;
    while i < v.len()
        invariant
            i <= v.len(),
            s@ == v@.take(i as int),
        decreases v.len() - i,
    {
        s.push(v[i]);
        assert(v@.take(i as int).push(v@[i as int]) == v@.take(i + 1));
        i += 1;
    }
    assert(v@.take(v.len() as int) == v@);
    s
}

/// An owned copy of `s`.
pub fn owned(s: &str) -> (r: String)
    ensures
        r@ == s@,
{
    let v = chars_of(s);
    string_of(&v)
}

/// Append the characters of `t` to `v`.
pub fn push_all(v: &mut Vec<char>, t: &[char])
    ensures
        final(v)@ == old(v)@ + t@,
{
    let ghost start = v@;
    let mut i: usize = 0;
    while i < t.len()
        invariant
            i <= t.len(),
            v@ == start + t@.take(i as int),
        decreases t.len() - i,
    {
        v.push(t[i]);
        assert(start + t@.take(i + 1) == (start + t@.take(i as int)).push(t@[i as int]));
        i += 1;
    }
    assert(t@.take(t.len() as int) == t@);
}

/// Append the characters of `t` to `v`.
pub fn push_str(v: &mut Vec<char>, t: &str)
    ensures
        final(v)@ == old(v)@ + t@,
{
    let c = chars_of(t);
    push_all(v, &c);
}

/// `n` spaces (none for `n <= 0`).
pub open spec fn spaces(n: int) -> Seq<char>
    decreases n,
{
    if n <= 0 {
        seq![]
    } else {
        spaces(n - 1).push(' ')
    }
}

/// `s` left-aligned in `width` columns, as `format!("{:width$}")` pads it.
pub open spec fn pad_right(s: Seq<char>, width: int) -> Seq<char> {
    s + spaces(width - s.len())
}

/// The characters of `s`, padded with spaces to `width`.
pub fn padded_to(s: &str, width: usize) -> (r: Vec<char>)
    ensures
        r@ == pad_right(s@, width as int),
{
    let mut r = chars_of(s);
    let n = r.len();
    let mut k: usize = n;
    assert(r@ =~= s@ + spaces(0));
    while k < width
        invariant
            n == s@.len(),
            n <= k <= width || (k == n && n >= width),
            r@ == s@ + spaces(k - n),
        decreases width - k,
    {
        r.push(' ');
        assert(spaces(k + 1 - n) == spaces(k - n).push(' '));
        k += 1;
    }
    proof {
        if n < width {
            assert(k == width);
        } else {
            assert(spaces(width - s@.len()) =~= spaces(0));
        }
    }
    r
}

/// A copy of `v`.
pub fn copy_chars(v: &[char]) -> (r: Vec<char>)
    ensures
        r@ == v@,
{
    let mut r: Vec<char> = Vec::new();
    push_all(&mut r, v);
    assert(Seq::<char>::empty() + v@ == v@);
    r
}

/// The characters `v[from..to]`.
pub fn slice(v: &[char], from: usize, to: usize) -> (r: Vec<char>)
    requires
        from <= to <= v.len(),
    ensures
        r@ == v@.subrange(from as int, to as int),
{
    let mut r: Vec<char> = Vec::new();
    let mut i = from;
    while i < to
        invariant
            from <= i <= to <= v.len(),
            r@ == v@.subrange(from as int, i as int),
        decreases to - i,
    {
        r.push(v[i]);
        assert(v@.subrange(from as int, i + 1) == v@.subrange(from as int, i as int).push(
            v@[i as int],
        ));
        i += 1;
    }
    r
}

// ---------------------------------------------------------------------------
// comparison
// ---------------------------------------------------------------------------

pub fn eq(a: &[char], b: &[char]) -> (r: bool)
    ensures
        r == (a@ == b@),
{
    if a.len() != b.len() {
        return false;
    }
    let mut i: usize = 0;
    while i < a.len()
        invariant
            a.len() == b.len(),
            i <= a.len(),
            forall|j: int| 0 <= j < i ==> a@[j] == b@[j],
        decreases a.len() - i,
    {
        if a[i] != b[i] {
            return false;
        }
        i += 1;
    }
    assert(a@ =~= b@);
    true
}

/// `a` equals the characters of `b`.
pub fn eq_str(a: &[char], b: &str) -> (r: bool)
    ensures
        r == (a@ == b@),
{
    let bv = chars_of(b);
    eq(a, &bv)
}

/// String equality by characters.
pub fn same(a: &str, b: &str) -> (r: bool)
    ensures
        r == (a@ == b@),
{
    let av = chars_of(a);
    let bv = chars_of(b);
    eq(&av, &bv)
}

/// Lexicographic order on character sequences (the order of `str`'s `Ord`,
/// which compares UTF-8 bytes and therefore code points).
pub open spec fn seq_lt(a: Seq<char>, b: Seq<char>) -> bool
    decreases a.len(),
{
    if a.len() == 0 {
        b.len() > 0
    } else if b.len() == 0 {
        false
    } else if a[0] != b[0] {
        a[0] < b[0]
    } else {
        seq_lt(a.drop_first(), b.drop_first())
    }
}

pub proof fn lemma_lt_irrefl(a: Seq<char>)
    ensures
        !seq_lt(a, a),
    decreases a.len(),
{
    if a.len() > 0 {
        lemma_lt_irrefl(a.drop_first());
    }
}

pub proof fn lemma_lt_total(a: Seq<char>, b: Seq<char>)
    ensures
        a == b || seq_lt(a, b) || seq_lt(b, a),
    decreases a.len(),
{
    if a.len() > 0 && b.len() > 0 && a[0] == b[0] {
        lemma_lt_total(a.drop_first(), b.drop_first());
        if a.drop_first() == b.drop_first() {
            assert(a =~= seq![a[0]] + a.drop_first());
            assert(b =~= seq![b[0]] + b.drop_first());
        }
    }
}

pub proof fn lemma_lt_asym(a: Seq<char>, b: Seq<char>)
    ensures
        !(seq_lt(a, b) && seq_lt(b, a)),
    decreases a.len(),
{
    if a.len() > 0 && b.len() > 0 && a[0] == b[0] {
        lemma_lt_asym(a.drop_first(), b.drop_first());
    }
}

pub proof fn lemma_lt_trans(a: Seq<char>, b: Seq<char>, c: Seq<char>)
    requires
        seq_lt(a, b),
        seq_lt(b, c),
    ensures
        seq_lt(a, c),
    decreases a.len(),
{
    if a.len() > 0 && b.len() > 0 && c.len() > 0 && a[0] == b[0] && b[0] == c[0] {
        lemma_lt_trans(a.drop_first(), b.drop_first(), c.drop_first());
    }
}

pub fn lt(a: &[char], b: &[char]) -> (r: bool)
    ensures
        r == seq_lt(a@, b@),
{
    let mut i: usize = 0;
    assert(a@.skip(0) == a@ && b@.skip(0) == b@);
    while i < a.len() && i < b.len() && a[i] == b[i]
        invariant
            i <= a.len(),
            i <= b.len(),
            seq_lt(a@, b@) == seq_lt(a@.skip(i as int), b@.skip(i as int)),
        decreases a.len() - i,
    {
        assert(a@.skip(i as int).drop_first() == a@.skip(i + 1));
        assert(b@.skip(i as int).drop_first() == b@.skip(i + 1));
        i += 1;
    }
    if i == a.len() {
        i < b.len()
    } else if i == b.len() {
        false
    } else {
        a[i] < b[i]
    }
}

/// Strict lexicographic order on strings.
pub fn str_lt(a: &str, b: &str) -> (r: bool)
    ensures
        r == seq_lt(a@, b@),
{
    let av = chars_of(a);
    let bv = chars_of(b);
    lt(&av, &bv)
}

// ---------------------------------------------------------------------------
// searching
// ---------------------------------------------------------------------------

/// `pat` occurs in `s` at position `i`.
pub open spec fn occurs_at(s: Seq<char>, pat: Seq<char>, i: int) -> bool {
    0 <= i && i + pat.len() <= s.len() && s.subrange(i, i + pat.len()) == pat
}

pub open spec fn contains_seq(s: Seq<char>, pat: Seq<char>) -> bool {
    exists|i: int| occurs_at(s, pat, i)
}

pub open spec fn starts_with(s: Seq<char>, pat: Seq<char>) -> bool {
    occurs_at(s, pat, 0)
}

pub open spec fn ends_with(s: Seq<char>, pat: Seq<char>) -> bool {
    occurs_at(s, pat, s.len() - pat.len())
}

pub fn match_at(s: &[char], pat: &[char], i: usize) -> (r: bool)
    ensures
        r == occurs_at(s@, pat@, i as int),
{
    if i > s.len() || pat.len() > s.len() - i {
        return false;
    }
    let mut k: usize = 0;
    while k < pat.len()
        invariant
            i + pat.len() <= s.len(),
            k <= pat.len(),
            forall|j: int| 0 <= j < k ==> s@[i + j] == pat@[j],
        decreases pat.len() - k,
    {
        if s[i + k] != pat[k] {
            assert(s@.subrange(i as int, i + pat.len())[k as int] != pat@[k as int]);
            return false;
        }
        k += 1;
    }
    assert(s@.subrange(i as int, i + pat.len()) =~= pat@);
    true
}

pub fn has_prefix(s: &[char], pat: &[char]) -> (r: bool)
    ensures
        r == starts_with(s@, pat@),
{
    match_at(s, pat, 0)
}

/// The first position at or after `from` where `pat` occurs, if any.
pub open spec fn first_from(s: Seq<char>, pat: Seq<char>, from: int) -> Option<int>
    decreases s.len() + 1 - from,
{
    if from < 0 || from + pat.len() > s.len() {
        None
    } else if occurs_at(s, pat, from) {
        Some(from)
    } else {
        first_from(s, pat, from + 1)
    }
}

pub proof fn lemma_first_from(s: Seq<char>, pat: Seq<char>, from: int)
    requires
        from >= 0,
    ensures
        first_from(s, pat, from) matches Some(i) ==> from <= i && occurs_at(s, pat, i) && forall|
            j: int,
        |
            from <= j < i ==> !occurs_at(s, pat, j),
        first_from(s, pat, from) is None ==> forall|j: int| from <= j ==> !occurs_at(s, pat, j),
    decreases s.len() + 1 - from,
{
    if from + pat.len() > s.len() {
    } else if occurs_at(s, pat, from) {
    } else {
        lemma_first_from(s, pat, from + 1);
    }
}

/// The first position at or after `from` where `pat` occurs.
pub fn find_from(s: &[char], pat: &[char], from: usize) -> (r: Option<usize>)
    ensures
        r matches Some(i) ==> first_from(s@, pat@, from as int) == Some(i as int),
        r is None ==> first_from(s@, pat@, from as int) is None,
{
    let mut i = from;
    while i <= s.len() && pat.len() <= s.len() - i
        invariant
            from <= i,
            first_from(s@, pat@, from as int) == first_from(s@, pat@, i as int),
        decreases s.len() + 1 - i,
    {
        if match_at(s, pat, i) {
            return Some(i);
        }
        if i == s.len() {
            assert(first_from(s@, pat@, i as int) == first_from(s@, pat@, i + 1));
            assert(first_from(s@, pat@, i + 1) is None);
            return None;
        }
        i += 1;
    }
    None
}

pub fn find(s: &[char], pat: &[char]) -> (r: Option<usize>)
    ensures
        r matches Some(i) ==> first_from(s@, pat@, 0) == Some(i as int),
        r is None ==> first_from(s@, pat@, 0) is None,
{
    find_from(s, pat, 0)
}

pub fn contains(s: &[char], pat: &[char]) -> (r: bool)
    ensures
        r == contains_seq(s@, pat@),
{
    proof {
        lemma_first_from(s@, pat@, 0);
    }
    match find(s, pat) {
        Some(i) => true,
        None => false,
    }
}

// ---------------------------------------------------------------------------
// trimming
// ---------------------------------------------------------------------------

pub open spec fn trim_start_seq(s: Seq<char>) -> Seq<char>
    decreases s.len(),
{
    if s.len() > 0 && is_ws(s[0]) {
        trim_start_seq(s.drop_first())
    } else {
        s
    }
}

pub open spec fn trim_end_seq(s: Seq<char>) -> Seq<char>
    decreases s.len(),
{
    if s.len() > 0 && is_ws(s.last()) {
        trim_end_seq(s.drop_last())
    } else {
        s
    }
}

/// `str::trim`: leading and trailing white space removed.
pub open spec fn trim_seq(s: Seq<char>) -> Seq<char> {
    trim_end_seq(trim_start_seq(s))
}

pub fn trim_start(v: &[char]) -> (r: Vec<char>)
    ensures
        r@ == trim_start_seq(v@),
{
    let mut i: usize = 0;
    assert(v@.skip(0) == v@);
    while i < v.len() && whitespace(v[i])
        invariant
            i <= v.len(),
            trim_start_seq(v@) == trim_start_seq(v@.skip(i as int)),
        decreases v.len() - i,
    {
        assert(v@.skip(i as int).drop_first() == v@.skip(i + 1));
        i += 1;
    }
    slice(v, i, v.len())
}

pub fn trim_end(v: &[char]) -> (r: Vec<char>)
    ensures
        r@ == trim_end_seq(v@),
{
    let mut j: usize = v.len();
    assert(v@.take(v.len() as int) == v@);
    while j > 0 && whitespace(v[j - 1])
        invariant
            j <= v.len(),
            trim_end_seq(v@) == trim_end_seq(v@.take(j as int)),
        decreases j,
    {
        assert(v@.take(j as int).drop_last() == v@.take(j - 1));
        j -= 1;
    }
    assert(v@.take(j as int) == v@.subrange(0, j as int));
    slice(v, 0, j)
}

pub fn trim(v: &[char]) -> (r: Vec<char>)
    ensures
        r@ == trim_seq(v@),
{
    let a = trim_start(v);
    trim_end(&a)
}

/// The characters of `s`, trimmed.
pub fn trim_str(s: &str) -> (r: Vec<char>)
    ensures
        r@ == trim_seq(s@),
{
    let v = chars_of(s);
    trim(&v)
}

// ---------------------------------------------------------------------------
// splitting and joining
// ---------------------------------------------------------------------------

/// `s.split(c)`: the pieces between occurrences of `c` (always at least one).
pub open spec fn split_seq(s: Seq<char>, c: char) -> Seq<Seq<char>>
    decreases s.len(),
{
    match first_from(s, seq![c], 0) {
        Some(i) => if 0 <= i < s.len() {
            seq![s.take(i)] + split_seq(s.skip(i + 1), c)
        } else {
            seq![s]
        },
        None => seq![s],
    }
}

/// Pieces joined with `sep` between them.
pub open spec fn join_seq(pieces: Seq<Seq<char>>, sep: Seq<char>) -> Seq<char>
    decreases pieces.len(),
{
    if pieces.len() == 0 {
        seq![]
    } else if pieces.len() == 1 {
        pieces[0]
    } else {
        pieces[0] + sep + join_seq(pieces.drop_first(), sep)
    }
}

/// Lines as `str::lines` yields them: split on `\n`, a final empty piece
/// dropped, and one trailing `\r` removed from each line.
pub open spec fn lines_seq(s: Seq<char>) -> Seq<Seq<char>> {
    let p = split_seq(s, '\n');
    let q = if p.last().len() == 0 {
        p.drop_last()
    } else {
        p
    };
    q.map_values(|l: Seq<char>| strip_cr(l))
}

pub open spec fn strip_cr(l: Seq<char>) -> Seq<char> {
    if l.len() > 0 && l.last() == '\r' {
        l.drop_last()
    } else {
        l
    }
}

proof fn lemma_no_char_first(s: Seq<char>, c: char, k: int)
    requires
        0 <= k <= s.len(),
        forall|j: int| 0 <= j < k ==> s[j] != c,
    ensures
        forall|j: int| 0 <= j < k ==> !occurs_at(s, seq![c], j),
{
    assert forall|j: int| 0 <= j < k implies !occurs_at(s, seq![c], j) by {
        if occurs_at(s, seq![c], j) {
            assert(s.subrange(j, j + 1)[0] == s[j]);
        }
    }
}

pub proof fn lemma_split_step(s: Seq<char>, c: char, i: int)
    requires
        0 <= i < s.len(),
        s[i] == c,
        forall|j: int| 0 <= j < i ==> s[j] != c,
    ensures
        split_seq(s, c) == seq![s.take(i)] + split_seq(s.skip(i + 1), c),
{
    lemma_no_char_first(s, c, i);
    lemma_first_from(s, seq![c], 0);
    assert(occurs_at(s, seq![c], i)) by {
        assert(s.subrange(i, i + 1) =~= seq![c]);
    }
    let f = first_from(s, seq![c], 0);
    assert(f == Some(i));
}

pub proof fn lemma_split_none(s: Seq<char>, c: char)
    requires
        forall|j: int| 0 <= j < s.len() ==> s[j] != c,
    ensures
        split_seq(s, c) == seq![s],
{
    lemma_no_char_first(s, c, s.len() as int);
    lemma_first_from(s, seq![c], 0);
    if first_from(s, seq![c], 0) is Some {
        let i = first_from(s, seq![c], 0)->0;
        assert(occurs_at(s, seq![c], i));
    }
}

/// Splitting on `\n` around an inserted `\n` splits each side.
pub proof fn lemma_split_cat(x: Seq<char>, y: Seq<char>)
    ensures
        split_seq(x + seq!['\n'] + y, '\n') == split_seq(x, '\n') + split_seq(y, '\n'),
    decreases x.len(),
{
    let s = x + seq!['\n'] + y;
    lemma_first_from(x, seq!['\n'], 0);
    match first_from(x, seq!['\n'], 0) {
        None => {
            assert forall|j: int| 0 <= j < x.len() implies x[j] != '\n' by {
                if x[j] == '\n' {
                    assert(x.subrange(j, j + 1) =~= seq!['\n']);
                    assert(occurs_at(x, seq!['\n'], j));
                }
            }
            lemma_split_none(x, '\n');
            assert forall|j: int| 0 <= j < x.len() implies s[j] != '\n' by {
                assert(s[j] == x[j]);
            }
            lemma_split_step(s, '\n', x.len() as int);
            assert(s.take(x.len() as int) =~= x);
            assert(s.skip(x.len() as int + 1) =~= y);
        },
        Some(i) => {
            assert forall|j: int| 0 <= j < i implies x[j] != '\n' by {
                if x[j] == '\n' {
                    assert(x.subrange(j, j + 1) =~= seq!['\n']);
                    assert(occurs_at(x, seq!['\n'], j));
                }
            }
            assert(x[i] == '\n') by {
                assert(x.subrange(i, i + 1)[0] == x[i]);
            }
            lemma_split_step(x, '\n', i);
            assert forall|j: int| 0 <= j < i implies s[j] != '\n' by {
                assert(s[j] == x[j]);
            }
            lemma_split_step(s, '\n', i);
            let x2 = x.skip(i + 1);
            lemma_split_cat(x2, y);
            assert(s.take(i) =~= x.take(i));
            assert(s.skip(i + 1) =~= x2 + seq!['\n'] + y);
            assert(split_seq(s, '\n') =~= split_seq(x, '\n') + split_seq(y, '\n'));
        },
    }
}

/// Splitting always yields at least one piece.
pub proof fn lemma_split_nonempty(s: Seq<char>)
    ensures
        split_seq(s, '\n').len() >= 1,
{
    lemma_first_from(s, seq!['\n'], 0);
}

/// Joining one more piece appends the separator and the piece.
pub proof fn lemma_join_push(xs: Seq<Seq<char>>, y: Seq<char>)
    requires
        xs.len() > 0,
    ensures
        join_seq(xs.push(y), seq!['\n']) == join_seq(xs, seq!['\n']) + seq!['\n'] + y,
    decreases xs.len(),
{
    if xs.len() == 1 {
        assert(xs.push(y).drop_first() =~= seq![y]);
        assert(join_seq(xs.push(y), seq!['\n']) == xs[0] + seq!['\n'] + join_seq(seq![y], seq!['\n']));
    } else {
        lemma_join_push(xs.drop_first(), y);
        assert(xs.push(y).drop_first() =~= xs.drop_first().push(y));
        assert(join_seq(xs.push(y), seq!['\n']) =~= join_seq(xs, seq!['\n']) + seq!['\n'] + y);
    }
}

/// The lines of a text with a line break inserted: the pieces before it,
/// then the lines after it.
pub proof fn lemma_lines_cat(x: Seq<char>, y: Seq<char>)
    ensures
        lines_seq(x + seq!['\n'] + y) == split_seq(x, '\n').map_values(|l: Seq<char>| strip_cr(l))
            + lines_seq(y),
{
    lemma_split_cat(x, y);
    lemma_split_nonempty(y);
    let px = split_seq(x, '\n');
    let py = split_seq(y, '\n');
    let p = px + py;
    assert(p.last() == py.last());
    if py.last().len() == 0 {
        assert(p.drop_last() =~= px + py.drop_last());
        assert((px + py.drop_last()).map_values(|l: Seq<char>| strip_cr(l)) =~= px.map_values(
            |l: Seq<char>| strip_cr(l),
        ) + py.drop_last().map_values(|l: Seq<char>| strip_cr(l)));
    } else {
        assert(p.map_values(|l: Seq<char>| strip_cr(l)) =~= px.map_values(
            |l: Seq<char>| strip_cr(l),
        ) + py.map_values(|l: Seq<char>| strip_cr(l)));
    }
}

/// A one-line text before a line break is the first line.
pub proof fn lemma_lines_one(x: Seq<char>, y: Seq<char>)
    requires
        forall|j: int| 0 <= j < x.len() ==> x[j] != '\n',
    ensures
        lines_seq(x + seq!['\n'] + y) == seq![strip_cr(x)] + lines_seq(y),
{
    lemma_lines_cat(x, y);
    lemma_split_none(x, '\n');
    assert(seq![x].map_values(|l: Seq<char>| strip_cr(l)) =~= seq![strip_cr(x)]);
}

/// Splitting on `\n` and joining with `\n` gives the text back.
pub proof fn lemma_join_split(s: Seq<char>)
    ensures
        join_seq(split_seq(s, '\n'), seq!['\n']) == s,
    decreases s.len(),
{
    lemma_first_from(s, seq!['\n'], 0);
    match first_from(s, seq!['\n'], 0) {
        None => {
            assert forall|j: int| 0 <= j < s.len() implies s[j] != '\n' by {
                if s[j] == '\n' {
                    assert(s.subrange(j, j + 1) =~= seq!['\n']);
                    assert(occurs_at(s, seq!['\n'], j));
                }
            }
            lemma_split_none(s, '\n');
        },
        Some(i) => {
            assert(s[i] == '\n') by {
                assert(s.subrange(i, i + 1)[0] == s[i]);
            }
            let r = s.skip(i + 1);
            lemma_split_nonempty(r);
            lemma_join_split(r);
            let p = split_seq(s, '\n');
            assert(p == seq![s.take(i)] + split_seq(r, '\n'));
            assert(p.drop_first() =~= split_seq(r, '\n'));
            assert(s =~= s.take(i) + seq!['\n'] + r);
        },
    }
}

/// `s.split(c)`.
pub fn split_char(s: &[char], c: char) -> (r: Vec<Vec<char>>)
    ensures
        r@.map_values(|p: Vec<char>| p@) == split_seq(s@, c),
{
    let mut out: Vec<Vec<char>> = Vec::new();
    let mut start: usize = 0;
    let mut i: usize = 0;
    assert(s@.skip(0) == s@);
    assert(out@.map_values(|p: Vec<char>| p@) == Seq::<Seq<char>>::empty());
    while i < s.len()
        invariant
            start <= i <= s.len(),
            forall|j: int| start <= j < i ==> s@[j] != c,
            out@.map_values(|p: Vec<char>| p@) + split_seq(s@.skip(start as int), c) == split_seq(
                s@,
                c,
            ),
        decreases s.len() - i,
    {
        if s[i] == c {
            let piece = slice(s, start, i);
            proof {
                let rest = s@.skip(start as int);
                assert forall|j: int| 0 <= j < i - start implies rest[j] != c by {
                    assert(rest[j] == s@[start + j]);
                }
                lemma_split_step(rest, c, i - start);
                assert(rest.take(i - start) == piece@);
                assert(rest.skip(i - start + 1) == s@.skip(i + 1));
            }
            let ghost before = out@;
            out.push(piece);
            proof {
                assert(out@.map_values(|p: Vec<char>| p@) == before.map_values(|p: Vec<char>| p@)
                    + seq![piece@]);
            }
            start = i + 1;
        }
        i += 1;
    }
    let piece = slice(s, start, s.len());
    proof {
        let rest = s@.skip(start as int);
        assert forall|j: int| 0 <= j < rest.len() implies rest[j] != c by {
            assert(rest[j] == s@[start + j]);
        }
        lemma_split_none(rest, c);
        assert(rest == piece@);
    }
    let ghost before = out@;
    out.push(piece);
    proof {
        assert(out@.map_values(|p: Vec<char>| p@) == before.map_values(|p: Vec<char>| p@) + seq![
            piece@,
        ]);
    }
    out
}

/// Pieces joined with `sep`.
pub fn join(pieces: &[Vec<char>], sep: &[char]) -> (r: Vec<char>)
    ensures
        r@ == join_seq(pieces@.map_values(|p: Vec<char>| p@), sep@),
{
    let ghost ps = pieces@.map_values(|p: Vec<char>| p@);
    if pieces.len() == 0 {
        return Vec::new();
    }
    let mut out = copy_chars(&pieces[pieces.len() - 1]);
    let mut i: usize = pieces.len() - 1;
    assert(ps.skip(i as int) =~= seq![ps[i as int]]);
    while i > 0
        invariant
            0 <= i < pieces.len(),
            ps == pieces@.map_values(|p: Vec<char>| p@),
            out@ == join_seq(ps.skip(i as int), sep@),
        decreases i,
    {
        let mut next = copy_chars(&pieces[i - 1]);
        push_all(&mut next, sep);
        push_all(&mut next, &out);
        proof {
            let t = ps.skip(i - 1);
            assert(t.drop_first() == ps.skip(i as int));
            assert(t[0] == ps[i - 1]);
            assert(t.len() >= 2);
        }
        out = next;
        i -= 1;
    }
    assert(ps.skip(0) == ps);
    out
}

/// `s.lines()`.
pub fn lines(s: &[char]) -> (r: Vec<Vec<char>>)
    ensures
        r@.map_values(|p: Vec<char>| p@) == lines_seq(s@),
{
    let mut p = split_char(s, '\n');
    let ghost ps = p@.map_values(|x: Vec<char>| x@);
    assert(ps.len() >= 1) by {
        reveal_with_fuel(split_seq, 1);
    }
    if p[p.len() - 1].len() == 0 {
        p.pop();
    }
    let ghost q = p@.map_values(|x: Vec<char>| x@);
    assert(q == if ps.last().len() == 0 {
        ps.drop_last()
    } else {
        ps
    });
    let mut out: Vec<Vec<char>> = Vec::new();
    let mut i: usize = 0;
    while i < p.len()
        invariant
            i <= p.len(),
            q == p@.map_values(|x: Vec<char>| x@),
            out@.map_values(|x: Vec<char>| x@) == q.take(i as int).map_values(
                |l: Seq<char>| strip_cr(l),
            ),
        decreases p.len() - i,
    {
        let l = &p[i];
        let line = if l.len() > 0 && l[l.len() - 1] == '\r' {
            slice(l, 0, l.len() - 1)
        } else {
            copy_chars(l)
        };
        proof {
            assert(line@ == strip_cr(q[i as int]));
        }
        let ghost before = out@;
        out.push(line);
        proof {
            assert(q.take(i + 1) == q.take(i as int).push(q[i as int]));
            assert(q.take(i + 1).map_values(|l: Seq<char>| strip_cr(l)) =~= q.take(i as int).map_values(|l: Seq<char>| strip_cr(l)).push(strip_cr(q[i as int])));
            assert(out@.map_values(|x: Vec<char>| x@) =~= before.map_values(|x: Vec<char>| x@).push(line@));
            assert(out@.map_values(|x: Vec<char>| x@) =~= q.take(i + 1).map_values(
                |l: Seq<char>| strip_cr(l),
            ));
        }
        i += 1;
    }
    assert(q.take(p.len() as int) == q);
    out
}

// ---------------------------------------------------------------------------
// sorting
// ---------------------------------------------------------------------------

/// Ascending by character order (equal strings in any order).
pub open spec fn sorted_strs(s: Seq<Seq<char>>) -> bool {
    forall|i: int, j: int| 0 <= i < j < s.len() ==> !seq_lt(#[trigger] s[j], #[trigger] s[i])
}

pub open spec fn views_of(v: Seq<String>) -> Seq<Seq<char>> {
    v.map_values(|s: String| s@)
}

/// `v` sorted ascending: the same strings, in order.
pub fn sort_strings(v: Vec<String>) -> (r: Vec<String>)
    ensures
        sorted_strs(views_of(r@)),
        views_of(r@).to_multiset() == views_of(v@).to_multiset(),
{
    let mut r: Vec<String> = Vec::new();
    let mut i: usize = 0;
    proof {
        broadcast use vstd::seq_lib::group_to_multiset_ensures;
        assert(views_of(v@).take(0) =~= Seq::<Seq<char>>::empty());
        assert(views_of(r@) =~= Seq::<Seq<char>>::empty());
    }
    while i < v.len()
        invariant
            i <= v.len(),
            sorted_strs(views_of(r@)),
            views_of(r@).to_multiset() == views_of(v@).take(i as int).to_multiset(),
        decreases v.len() - i,
    {
        let x = v[i].clone();
        let xc = chars_of(x.as_str());
        // the first position whose element is greater than x
        let mut k: usize = 0;
        while k < r.len() && !lt(&xc, &chars_of(r[k].as_str()))
            invariant
                k <= r.len(),
                xc@ == x@,
                forall|m: int| 0 <= m < k ==> !seq_lt(x@, views_of(r@)[m]),
            decreases r.len() - k,
        {
            k += 1;
        }
        let ghost before = views_of(r@);
        r.insert(k, x);
        proof {
            broadcast use vstd::seq_lib::group_to_multiset_ensures;
            let after = views_of(r@);
            assert(after =~= before.insert(k as int, x@));
            before.insert_ensures(k as int, x@);
            assert(after.remove(k as int) =~= before);
            assert(after.to_multiset().remove(x@) == before.to_multiset());
            assert(after.contains(x@)) by {
                assert(after[k as int] == x@);
            }
            assert(after.to_multiset() =~= before.to_multiset().insert(x@));
            assert(views_of(v@).take(i + 1) == views_of(v@).take(i as int).push(x@));
            assert forall|a: int, b: int| 0 <= a < b < after.len() implies !seq_lt(#[trigger] after[b], #[trigger] after[a]) by {
                if a < k && b == k {
                    // x is not below an earlier element
                    assert(!seq_lt(x@, before[a]));
                } else if a == k && b > k {
                    // x is below the element at k (when there was one)
                    assert(after[b] == before[b - 1]);
                    if k < before.len() {
                        assert(seq_lt(x@, before[k as int]));
                        if b - 1 > k {
                            assert(!seq_lt(before[b - 1], before[k as int]));
                            lemma_lt_total(before[b - 1], before[k as int]);
                            if before[b - 1] != before[k as int] {
                                lemma_lt_trans(x@, before[k as int], before[b - 1]);
                            }
                        }
                        lemma_lt_asym(x@, after[b]);
                    }
                } else {
                    let a2 = if a < k { a } else { a - 1 };
                    let b2 = if b < k { b } else { b - 1 };
                    assert(after[a] == before[a2]);
                    assert(after[b] == before[b2]);
                }
            }
        }
        i += 1;
    }
    assert(views_of(v@).take(v.len() as int) == views_of(v@));
    r
}

} // verus!
