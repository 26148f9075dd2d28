//! The frontmatter serializer: emits the small YAML subset the parser reads,
//! quoting a scalar only when YAML's implicit typing or syntax would misread it.

use vstd::prelude::*;
use crate::text::{
    chars_of, string_of, slice, eq_str, push_all, push_str, copy_chars, trim, is_ws, whitespace,
    is_digit, digit, contains, contains_seq, starts_with, has_prefix, trim_seq,
};
use crate::refs::{replace, replace_seq};
use crate::model::{Task, TaskView, strs, ostr};

verus! {

/// `s` equals the characters of `lit`.
fn same_chars(s: &[char], lit: &str) -> (r: bool)
    ensures
        r == (s@ == lit@),
{
    eq_str(s, lit)
}

/// YAML 1.1 booleans.
pub open spec fn is_bool_spec(s: Seq<char>) -> bool {
    s == "y"@ ||
        s == "Y"@ ||
        s == "yes"@ ||
        s == "Yes"@ ||
        s == "YES"@ ||
        s == "n"@ ||
        s == "N"@ ||
        s == "no"@ ||
        s == "No"@ ||
        s == "NO"@ ||
        s == "true"@ ||
        s == "True"@ ||
        s == "TRUE"@ ||
        s == "false"@ ||
        s == "False"@ ||
        s == "FALSE"@ ||
        s == "on"@ ||
        s == "On"@ ||
        s == "ON"@ ||
        s == "off"@ ||
        s == "Off"@ ||
        s == "OFF"@
}

pub fn is_bool(s: &[char]) -> (r: bool)
    ensures
        r == is_bool_spec(s@),
{
    same_chars(s, "y") ||
        same_chars(s, "Y") ||
        same_chars(s, "yes") ||
        same_chars(s, "Yes") ||
        same_chars(s, "YES") ||
        same_chars(s, "n") ||
        same_chars(s, "N") ||
        same_chars(s, "no") ||
        same_chars(s, "No") ||
        same_chars(s, "NO") ||
        same_chars(s, "true") ||
        same_chars(s, "True") ||
        same_chars(s, "TRUE") ||
        same_chars(s, "false") ||
        same_chars(s, "False") ||
        same_chars(s, "FALSE") ||
        same_chars(s, "on") ||
        same_chars(s, "On") ||
        same_chars(s, "ON") ||
        same_chars(s, "off") ||
        same_chars(s, "Off") ||
        same_chars(s, "OFF")
}

pub open spec fn all_digits(s: Seq<char>) -> bool {
    forall|i: int| 0 <= i < s.len() ==> is_digit(s[i])
}

fn digits_only(s: &[char], from: usize) -> (r: bool)
    requires
        from <= s.len(),
    ensures
        r == all_digits(s@.skip(from as int)),
{
    let mut i = from;
    while i < s.len()
        invariant
            from <= i <= s.len(),
            forall|j: int| from <= j < i ==> is_digit(s@[j]),
        decreases s.len() - i,
    {
        if !digit(s[i]) {
            assert(!is_digit(s@.skip(from as int)[i - from]));
            return false;
        }
        i += 1;
    }
    assert forall|j: int| 0 <= j < s@.skip(from as int).len() implies is_digit(s@.skip(from as int)[j]) by {
        assert(s@.skip(from as int)[j] == s@[from + j]);
    }
    true
}

/// `s` without one leading `+` or `-`.
pub open spec fn unsigned_part(s: Seq<char>) -> Seq<char> {
    if s.len() > 0 && (s[0] == '+' || s[0] == '-') {
        s.drop_first()
    } else {
        s
    }
}

/// An optionally signed run of decimal digits.
pub open spec fn is_int_spec(s: Seq<char>) -> bool {
    let b = unsigned_part(s);
    b.len() > 0 && all_digits(b)
}

pub fn is_int(s: &[char]) -> (r: bool)
    ensures
        r == is_int_spec(s@),
{
    let from: usize = if s.len() > 0 && (s[0] == '+' || s[0] == '-') { 1 } else { 0 };
    assert(s@.skip(from as int) == unsigned_part(s@));
    from < s.len() && digits_only(s, from)
}

/// The first position of `e` or `E`, if any.
pub open spec fn first_exp(s: Seq<char>) -> Option<int>
    decreases s.len(),
{
    if s.len() == 0 {
        None
    } else if s[0] == 'e' || s[0] == 'E' {
        Some(0)
    } else {
        match first_exp(s.drop_first()) {
            Some(i) => Some(i + 1),
            None => None,
        }
    }
}

/// `Digit+ | Digit+ '.' Digit* | Digit* '.' Digit+`: digits with at most one
/// `.`, and at least one digit.
pub open spec fn mantissa_ok(m: Seq<char>) -> bool {
    &&& forall|i: int| 0 <= i < m.len() ==> (is_digit(m[i]) || m[i] == '.')
    &&& forall|i: int, j: int| 0 <= i < j < m.len() ==> !(m[i] == '.' && m[j] == '.')
    &&& exists|i: int| 0 <= i < m.len() && is_digit(m[i])
}

/// `Sign? Digit+`.
pub open spec fn exponent_ok(x: Seq<char>) -> bool {
    is_int_spec(x)
}

/// The decimal number grammar `str::parse::<f64>` documents:
/// `Sign? (Digit+ | Digit+ '.' Digit* | Digit* '.' Digit+) (('e'|'E') Sign? Digit+)?`.
pub open spec fn decimal_number(s: Seq<char>) -> bool {
    let t = unsigned_part(s);
    match first_exp(t) {
        Some(i) => mantissa_ok(t.take(i)) && exponent_ok(t.skip(i + 1)),
        None => mantissa_ok(t),
    }
}

pub open spec fn has_float_mark(s: Seq<char>) -> bool {
    exists|i: int| 0 <= i < s.len() && (s[i] == '.' || s[i] == 'e' || s[i] == 'E')
}

/// A float YAML would resolve: a token with a `.`, `e` or `E` that parses as
/// an `f64`. (The `inf`/`infinity`/`nan` spellings `f64` also accepts carry
/// none of those characters, so only decimal numbers qualify.)
pub open spec fn is_float_spec(s: Seq<char>) -> bool {
    has_float_mark(s) && decimal_number(s)
}

proof fn lemma_first_exp(s: Seq<char>)
    ensures
        first_exp(s) matches Some(i) ==> 0 <= i < s.len() && (s[i] == 'e' || s[i] == 'E')
            && forall|j: int| 0 <= j < i ==> !(s[j] == 'e' || s[j] == 'E'),
        first_exp(s) is None ==> forall|j: int| 0 <= j < s.len() ==> !(s[j] == 'e' || s[j] == 'E'),
    decreases s.len(),
{
    if s.len() > 0 && !(s[0] == 'e' || s[0] == 'E') {
        lemma_first_exp(s.drop_first());
        assert forall|j: int| 1 <= j < s.len() implies s[j] == s.drop_first()[j - 1] by {}
    }
}

fn mantissa(m: &[char]) -> (r: bool)
    ensures
        r == mantissa_ok(m@),
{
    let mut dots: usize = 0;
    let mut seen_digit = false;
    let mut i: usize = 0;
    let ghost mut dot_at: int = -1;
    while i < m.len()
        invariant
            i <= m.len(),
            forall|k: int| 0 <= k < i ==> (is_digit(m@[k]) || m@[k] == '.'),
            dots <= 1,
            dots == 0 ==> forall|k: int| 0 <= k < i ==> m@[k] != '.',
            dots == 1 ==> 0 <= dot_at < i && m@[dot_at] == '.' && forall|k: int|
                0 <= k < i && k != dot_at ==> m@[k] != '.',
            seen_digit == exists|k: int| 0 <= k < i && is_digit(m@[k]),
        decreases m.len() - i,
    {
        if m[i] == '.' {
            if dots == 1 {
                assert(m@[dot_at] == '.' && m@[i as int] == '.');
                return false;
            }
            dots = 1;
            proof {
                dot_at = i as int;
            }
        } else if digit(m[i]) {
            seen_digit = true;
        } else {
            return false;
        }
        i += 1;
    }
    seen_digit
}

fn decimal(s: &[char]) -> (r: bool)
    ensures
        r == decimal_number(s@),
{
    let from: usize = if s.len() > 0 && (s[0] == '+' || s[0] == '-') { 1 } else { 0 };
    let t = slice(s, from, s.len());
    assert(t@ == unsigned_part(s@));
    proof {
        lemma_first_exp(t@);
    }
    let mut i: usize = 0;
    while i < t.len() && !(t[i] == 'e' || t[i] == 'E')
        invariant
            i <= t.len(),
            forall|j: int| 0 <= j < i ==> !(t@[j] == 'e' || t@[j] == 'E'),
        decreases t.len() - i,
    {
        i += 1;
    }
    if i < t.len() {
        proof {
            match first_exp(t@) {
                Some(k) => {
                    if k < i {
                    }
                    if k > i {
                    }
                },
                None => {},
            }
        }
        let head = slice(&t, 0, i);
        let tail = slice(&t, i + 1, t.len());
        assert(head@ == t@.take(i as int));
        assert(tail@ == t@.skip(i + 1));
        mantissa(&head) && is_int(&tail)
    } else {
        assert(first_exp(t@) is None);
        mantissa(&t)
    }
}

pub fn is_float(s: &[char]) -> (r: bool)
    ensures
        r == is_float_spec(s@),
{
    let mut i: usize = 0;
    let mut mark = false;
    while i < s.len()
        invariant
            i <= s.len(),
            mark == exists|k: int| 0 <= k < i && (s@[k] == '.' || s@[k] == 'e' || s@[k] == 'E'),
        decreases s.len() - i,
    {
        if s[i] == '.' || s[i] == 'e' || s[i] == 'E' {
            mark = true;
        }
        i += 1;
    }
    mark && decimal(s)
}

/// `YYYY-MM-DD` optionally followed by `T`/`t`/space: the YAML timestamp shapes.
pub open spec fn is_timestamp_spec(s: Seq<char>) -> bool {
    &&& s.len() >= 10
    &&& is_digit(s[0]) && is_digit(s[1]) && is_digit(s[2]) && is_digit(s[3])
    &&& s[4] == '-'
    &&& is_digit(s[5]) && is_digit(s[6])
    &&& s[7] == '-'
    &&& is_digit(s[8]) && is_digit(s[9])
    &&& (s.len() == 10 || s[10] == 'T' || s[10] == 't' || s[10] == ' ')
}

pub fn is_timestamp(s: &[char]) -> (r: bool)
    ensures
        r == is_timestamp_spec(s@),
{
    s.len() >= 10 && digit(s[0]) && digit(s[1]) && digit(s[2]) && digit(s[3]) && s[4] == '-'
        && digit(s[5]) && digit(s[6]) && s[7] == '-' && digit(s[8]) && digit(s[9]) && (s.len()
        == 10 || s[10] == 'T' || s[10] == 't' || s[10] == ' ')
}

/// Would YAML 1.1 implicit resolution read this as a non-string?
pub open spec fn resolves_nonstring_spec(s: Seq<char>) -> bool {
    s.len() == 0 || s == "~"@ || s == "null"@ || s == "Null"@ || s == "NULL"@ || is_bool_spec(s)
        || is_int_spec(s) || is_float_spec(s) || is_timestamp_spec(s)
}

pub fn resolves_nonstring(s: &[char]) -> (r: bool)
    ensures
        r == resolves_nonstring_spec(s@),
{
    s.len() == 0 || same_chars(s, "~") || same_chars(s, "null") || same_chars(s, "Null")
        || same_chars(s, "NULL") || is_bool(s) || is_int(s) || is_float(s) || is_timestamp(s)
}

/// Characters that cannot open a plain YAML scalar.
pub open spec fn indicator(c: char) -> bool {
    c == '!' || c == '&' || c == '*' || c == '?' || c == '|' || c == '>' || c == '%' || c == '@'
        || c == '`' || c == '"' || c == '\'' || c == '#' || c == ',' || c == '[' || c == ']'
        || c == '{' || c == '}' || c == ':'
}

fn is_indicator(c: char) -> (r: bool)
    ensures
        r == indicator(c),
{
    c == '!' || c == '&' || c == '*' || c == '?' || c == '|' || c == '>' || c == '%' || c == '@'
        || c == '`' || c == '"' || c == '\'' || c == '#' || c == ',' || c == '[' || c == ']'
        || c == '{' || c == '}' || c == ':'
}

/// A scalar must be single-quoted when a plain token would be misread.
pub open spec fn needs_quotes_spec(s: Seq<char>) -> bool {
    ||| s.len() == 0
    ||| resolves_nonstring_spec(s)
    ||| is_ws(s[0])
    ||| is_ws(s.last())
    ||| indicator(s[0])
    ||| starts_with(s, seq!['-', ' '])
    ||| s == seq!['-']
    ||| contains_seq(s, seq![':', ' '])
    ||| contains_seq(s, seq![' ', '#'])
    ||| contains_seq(s, seq!['\n'])
}

pub fn needs_quotes(s: &[char]) -> (r: bool)
    ensures
        r == needs_quotes_spec(s@),
{
    if s.len() == 0 || resolves_nonstring(s) {
        return true;
    }
    if whitespace(s[0]) || whitespace(s[s.len() - 1]) || is_indicator(s[0]) {
        return true;
    }
    let mut dash_sp: Vec<char> = Vec::new();
    dash_sp.push('-');
    dash_sp.push(' ');
    let mut colon_sp: Vec<char> = Vec::new();
    colon_sp.push(':');
    colon_sp.push(' ');
    let mut sp_hash: Vec<char> = Vec::new();
    sp_hash.push(' ');
    sp_hash.push('#');
    let mut nl: Vec<char> = Vec::new();
    nl.push('\n');
    assert(dash_sp@ =~= seq!['-', ' ']);
    assert(colon_sp@ =~= seq![':', ' ']);
    assert(sp_hash@ =~= seq![' ', '#']);
    assert(nl@ =~= seq!['\n']);
    if has_prefix(s, &dash_sp) || (s.len() == 1 && s[0] == '-') {
        assert(s.len() == 1 && s[0] == '-' ==> s@ =~= seq!['-']);
        return true;
    }
    assert(s@ != seq!['-']);
    contains(s, &colon_sp) || contains(s, &sp_hash) || contains(s, &nl)
}

/// A scalar as emitted: plain, or single-quoted with `'` doubled.
pub open spec fn scalar_spec(s: Seq<char>) -> Seq<char> {
    if needs_quotes_spec(s) {
        seq!['\''] + replace_seq(s, seq!['\''], seq!['\'', '\'']) + seq!['\'']
    } else {
        s
    }
}

pub fn scalar(s: &[char]) -> (r: Vec<char>)
    ensures
        r@ == scalar_spec(s@),
{
    if needs_quotes(s) {
        let mut q: Vec<char> = Vec::new();
        q.push('\'');
        let mut qq: Vec<char> = Vec::new();
        qq.push('\'');
        qq.push('\'');
        assert(q@ =~= seq!['\'']);
        assert(qq@ =~= seq!['\'', '\'']);
        let inner = replace(s, &q, &qq);
        let mut out: Vec<char> = Vec::new();
        out.push('\'');
        push_all(&mut out, &inner);
        out.push('\'');
        assert(out@ =~= seq!['\''] + inner@ + seq!['\'']);
        out
    } else {
        copy_chars(s)
    }
}

/// The decimal digits of `n`.
pub open spec fn dec_spec(n: nat) -> Seq<char>
    decreases n,
{
    if n < 10 {
        seq![digit_char_spec(n)]
    } else {
        dec_spec(n / 10) + seq![digit_char_spec(n % 10)]
    }
}

pub open spec fn digit_char_spec(d: nat) -> char {
    if d == 0 { '0' } else if d == 1 { '1' } else if d == 2 { '2' } else if d == 3 { '3' }
    else if d == 4 { '4' } else if d == 5 { '5' } else if d == 6 { '6' } else if d == 7 { '7' }
    else if d == 8 { '8' } else { '9' }
}

pub fn digit_char(d: u64) -> (c: char)
    requires
        d < 10,
    ensures
        c == digit_char_spec(d as nat),
{
    if d == 0 { '0' } else if d == 1 { '1' } else if d == 2 { '2' } else if d == 3 { '3' }
    else if d == 4 { '4' } else if d == 5 { '5' } else if d == 6 { '6' } else if d == 7 { '7' }
    else if d == 8 { '8' } else { '9' }
}

/// The decimal representation of `n`.
pub fn dec(n: u64) -> (r: Vec<char>)
    ensures
        r@ == dec_spec(n as nat),
    decreases n,
{
    if n < 10 {
        let mut v: Vec<char> = Vec::new();
        v.push(digit_char(n));
        assert(v@ =~= seq![digit_char_spec(n as nat)]);
        v
    } else {
        let mut v = dec(n / 10);
        v.push(digit_char(n % 10));
        v
    }
}

/// One `key: <scalar>` line.
pub open spec fn field_line(key: Seq<char>, value: Seq<char>) -> Seq<char> {
    key + seq![':', ' '] + scalar_spec(value) + seq!['\n']
}

pub open spec fn opt_line(key: Seq<char>, value: Option<Seq<char>>) -> Seq<char> {
    match value {
        Some(v) => field_line(key, v),
        None => seq![],
    }
}

/// `- <scalar>` lines for each item.
pub open spec fn items_spec(items: Seq<Seq<char>>) -> Seq<char>
    decreases items.len(),
{
    if items.len() == 0 {
        seq![]
    } else {
        items_spec(items.drop_last()) + seq!['-', ' '] + scalar_spec(items.last()) + seq!['\n']
    }
}

/// A block list: `key:` then its items; nothing when empty.
pub open spec fn list_spec(key: Seq<char>, items: Seq<Seq<char>>) -> Seq<char> {
    if items.len() == 0 {
        seq![]
    } else {
        key + seq![':', '\n'] + items_spec(items)
    }
}

/// Each line followed by a newline.
pub open spec fn verbatim_spec(ls: Seq<Seq<char>>) -> Seq<char>
    decreases ls.len(),
{
    if ls.len() == 0 {
        seq![]
    } else {
        verbatim_spec(ls.drop_last()) + ls.last() + seq!['\n']
    }
}

/// The frontmatter lines of a task, known fields first, unmodeled lines last.
pub open spec fn frontmatter_spec(t: TaskView) -> Seq<char> {
    field_line("id"@, t.id) + field_line("title"@, t.title) + field_line("type"@, t.kind)
        + "priority: "@ + dec_spec(t.priority as nat) + seq!['\n'] + opt_line("created"@, t.created)
        + opt_line("updated"@, t.updated) + opt_line("parent"@, t.parent) + list_spec(
        "depends_on"@,
        t.depends_on,
    ) + list_spec("labels"@, t.labels) + opt_line("source"@, t.source) + opt_line(
        "needs"@,
        t.needs,
    ) + opt_line("verify"@, t.verify) + verbatim_spec(t.extra)
}

/// The full file text of a task: frontmatter, then the trimmed body.
pub open spec fn render_spec(t: TaskView) -> Seq<char> {
    let body = trim_seq(t.body);
    "---\n"@ + frontmatter_spec(t) + "---\n"@ + if body.len() > 0 {
        seq!['\n'] + body + seq!['\n']
    } else {
        seq![]
    }
}

fn push_field(out: &mut Vec<char>, key: &str, value: &str)
    ensures
        final(out)@ == old(out)@ + field_line(key@, value@),
{
    push_str(out, key);
    out.push(':');
    out.push(' ');
    let v = chars_of(value);
    let s = scalar(&v);
    push_all(out, &s);
    out.push('\n');
    assert(final(out)@ =~= old(out)@ + field_line(key@, value@));
}

fn push_opt(out: &mut Vec<char>, key: &str, value: &Option<String>)
    ensures
        final(out)@ == old(out)@ + opt_line(key@, ostr(*value)),
{
    match value {
        Some(v) => push_field(out, key, v.as_str()),
        None => {
            assert(old(out)@ + opt_line(key@, ostr(*value)) =~= old(out)@);
        },
    }
}

fn push_list(out: &mut Vec<char>, key: &str, items: &Vec<String>)
    ensures
        final(out)@ == old(out)@ + list_spec(key@, strs(items@)),
{
    let ghost start = old(out)@;
    if items.len() == 0 {
        assert(start + list_spec(key@, strs(items@)) =~= start);
        return;
    }
    push_str(out, key);
    out.push(':');
    out.push('\n');
    let ghost head = out@;
    let mut i: usize = 0;
    assert(items_spec(strs(items@).take(0)) =~= Seq::<char>::empty());
    assert(head + Seq::<char>::empty() =~= head);
    while i < items.len()
        invariant
            i <= items.len(),
            out@ == head + items_spec(strs(items@).take(i as int)),
        decreases items.len() - i,
    {
        out.push('-');
        out.push(' ');
        let v = chars_of(items[i].as_str());
        let s = scalar(&v);
        push_all(out, &s);
        out.push('\n');
        proof {
            let t = strs(items@).take(i + 1);
            assert(t.drop_last() == strs(items@).take(i as int));
            assert(t.last() == items@[i as int]@);
            assert(out@ =~= head + items_spec(t));
        }
        i += 1;
    }
    assert(strs(items@).take(items.len() as int) == strs(items@));
    assert(out@ =~= start + list_spec(key@, strs(items@)));
}

fn push_verbatim(out: &mut Vec<char>, lines: &Vec<String>)
    ensures
        final(out)@ == old(out)@ + verbatim_spec(strs(lines@)),
{
    let ghost head = old(out)@;
    let mut i: usize = 0;
    assert(verbatim_spec(strs(lines@).take(0)) =~= Seq::<char>::empty());
    assert(head + Seq::<char>::empty() =~= head);
    while i < lines.len()
        invariant
            i <= lines.len(),
            out@ == head + verbatim_spec(strs(lines@).take(i as int)),
        decreases lines.len() - i,
    {
        push_str(out, lines[i].as_str());
        out.push('\n');
        proof {
            let t = strs(lines@).take(i + 1);
            assert(t.drop_last() == strs(lines@).take(i as int));
            assert(t.last() == lines@[i as int]@);
            assert(out@ =~= head + verbatim_spec(t));
        }
        i += 1;
    }
    assert(strs(lines@).take(lines.len() as int) == strs(lines@));
}

/// The frontmatter lines of `t`.
pub fn frontmatter(t: &Task) -> (r: Vec<char>)
    ensures
        r@ == frontmatter_spec(t@),
{
    let mut out: Vec<char> = Vec::new();
    push_field(&mut out, "id", t.id.as_str());
    push_field(&mut out, "title", t.title.as_str());
    push_field(&mut out, "type", t.kind.as_str());
    push_str(&mut out, "priority: ");
    let p = dec(t.priority as u64);
    push_all(&mut out, &p);
    out.push('\n');
    push_opt(&mut out, "created", &t.created);
    push_opt(&mut out, "updated", &t.updated);
    push_opt(&mut out, "parent", &t.parent);
    push_list(&mut out, "depends_on", &t.depends_on);
    push_list(&mut out, "labels", &t.labels);
    push_opt(&mut out, "source", &t.source);
    push_opt(&mut out, "needs", &t.needs);
    push_opt(&mut out, "verify", &t.verify);
    push_verbatim(&mut out, &t.extra);
    assert(out@ =~= frontmatter_spec(t@));
    out
}

/// Full file text for a task: frontmatter + body.
pub fn render(t: &Task) -> (r: String)
    ensures
        r@ == render_spec(t@),
{
    let mut s: Vec<char> = Vec::new();
    push_str(&mut s, "---\n");
    let f = frontmatter(t);
    push_all(&mut s, &f);
    push_str(&mut s, "---\n");
    let body = trim(&chars_of(t.body.as_str()));
    let ghost before = s@;
    if body.len() > 0 {
        s.push('\n');
        push_all(&mut s, &body);
        s.push('\n');
        assert(s@ =~= before + (seq!['\n'] + body@ + seq!['\n']));
    } else {
        assert(s@ =~= before + Seq::<char>::empty());
    }
    string_of(&s)
}

} // verus!
