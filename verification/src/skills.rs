//! The agent skills' provenance: installed copies carry a stamp (the writing
//! build's version and a digest of the content as written) in their
//! frontmatter, which turns "is this file ours, untouched, older?" into the
//! decidable states of [`SkillState`].

use vstd::prelude::*;
use vstd::utf8::encode_utf8;
use crate::text::{
    chars_of, string_of, same, eq_str, trim, trim_seq, lines, lines_seq, join, join_seq, push_str,
    push_all, first_from, find, occurs_at, lemma_first_from, has_prefix, starts_with, slice,
    copy_chars, is_digit, digit,
};
use crate::store::read::{digits_value, u8_body};
use crate::store::layout::{hex_digit_spec};

verus! {

/// This build's version, stamped into the skills it installs.
pub open spec fn version_spec() -> Seq<char> {
    "0.1.0"@
}

/// This build's version, stamped into the skills it installs.
pub fn version() -> (r: &'static str)
    ensures
        r@ == version_spec(),
{
    "0.1.0"
}

/// The frontmatter keys the Agent Skills specification allows; `name` and
/// `description` are required.
pub const SPEC_FRONTMATTER_KEYS: [&'static str; 6] = ["name", "description", "license", "compatibility", "metadata", "allowed-tools"];

// ---------------------------------------------------------------------------
// digest
// ---------------------------------------------------------------------------

/// 64-bit FNV-1a over `bytes`.
pub open spec fn fnv(bytes: Seq<u8>) -> u64
    decreases bytes.len(),
{
    if bytes.len() == 0 {
        0xcbf2_9ce4_8422_2325u64
    } else {
        (fnv(bytes.drop_last()) ^ (bytes.last() as u64)).wrapping_mul(0x1000_0000_01b3u64)
    }
}

/// The low `n` hex digits of `h`, least significant first.
pub open spec fn low_digits(h: int, n: nat) -> Seq<char>
    decreases n,
{
    if n == 0 {
        seq![]
    } else {
        seq![hex_digit_spec(h % 16)] + low_digits(h / 16, (n - 1) as nat)
    }
}

/// The digest of a text: FNV-1a 64 of its UTF-8 bytes, as 16 lowercase hex
/// chars (most significant first).
pub open spec fn digest_spec(s: Seq<char>) -> Seq<char> {
    low_digits(fnv(encode_utf8(s)) as int, 16).reverse()
}

fn hex_char(d: u64) -> (c: char)
    requires
        d < 16,
    ensures
        c == hex_digit_spec(d as int),
{
    if d < 10 {
        ((d as u32) + ('0' as u32)) as u8 as char
    } else {
        ((d as u32) - 10 + ('a' as u32)) as u8 as char
    }
}

/// A 64-bit FNV-1a digest of `s`'s bytes, rendered as 16 lowercase hex
/// chars: enough to tell whether a text changed since it was written.
pub fn digest(s: &str) -> (r: String)
    ensures
        r@ == digest_spec(s@),
{
    let b = s.as_bytes();
    let mut h: u64 = 0xcbf2_9ce4_8422_2325;
    let mut i: usize = 0;
    assert(b@.take(0) =~= Seq::<u8>::empty());
    while i < b.len()
        invariant
            i <= b.len(),
            b@ == encode_utf8(s@),
            h == fnv(b@.take(i as int)),
        decreases b.len() - i,
    {
        assert(b@.take(i + 1).drop_last() == b@.take(i as int));
        assert(b@.take(i + 1).last() == b@[i as int]);
        h = (h ^ (b[i] as u64)).wrapping_mul(0x1000_0000_01b3);
        i += 1;
    }
    assert(b@.take(b.len() as int) == b@);
    let mut out: Vec<char> = Vec::new();
    let mut k: u64 = 0;
    let mut x: u64 = h;
    let ghost hv = h as int;
    assert(out@ + low_digits(hv, 16) == low_digits(hv, 16));
    while k < 16
        invariant
            k <= 16,
            out@.len() == k,
            out@ + low_digits(x as int, (16 - k) as nat) == low_digits(hv, 16),
        decreases 16 - k,
    {
        let d = x % 16;
        let ghost ob = out@;
        out.push(hex_char(d));
        proof {
            let m = (16 - k) as nat;
            assert(low_digits(x as int, m) == seq![hex_digit_spec(x as int % 16)] + low_digits(x as int / 16, (m - 1) as nat));
            assert(out@ + low_digits(x as int / 16, (m - 1) as nat) =~= ob + low_digits(x as int, m));
        }
        x = x / 16;
        k += 1;
    }
    assert(low_digits(x as int, 0) =~= Seq::<char>::empty());
    assert(out@ =~= low_digits(hv, 16));
    let mut r: Vec<char> = Vec::new();
    let mut j = out.len();
    while j > 0
        invariant
            j <= out.len(),
            r@ == out@.subrange(j as int, out@.len() as int).reverse(),
        decreases j,
    {
        r.push(out[j - 1]);
        assert(out@.subrange(j - 1, out@.len() as int).reverse() =~= out@.subrange(j as int, out@.len() as int).reverse().push(out@[j - 1]));
        j -= 1;
    }
    assert(out@.subrange(0, out@.len() as int) == out@);
    string_of(&r)
}

// ---------------------------------------------------------------------------
// the stamp
// ---------------------------------------------------------------------------

/// The provenance block: a `metadata:` map holding the writing build's
/// version and a digest of the content as written.
pub open spec fn stamp_block_spec(version: Seq<char>, dig: Seq<char>) -> Seq<char> {
    "metadata:\n  yaks-version: \""@ + version + "\"\n  yaks-digest: \""@ + dig + "\""@
}

fn stamp_block(version: &str, dig: &str) -> (r: Vec<char>)
    ensures
        r@ == stamp_block_spec(version@, dig@),
{
    let mut s = chars_of("metadata:\n  yaks-version: \"");
    push_str(&mut s, version);
    push_str(&mut s, "\"\n  yaks-digest: \"");
    push_str(&mut s, dig);
    push_str(&mut s, "\"");
    s
}

/// `content` with the stamp for `version` added as the last frontmatter
/// entry; unchanged when it has no frontmatter.
pub open spec fn stamp_spec(content: Seq<char>, version: Seq<char>) -> Seq<char> {
    if !starts_with(content, "---\n"@) {
        content
    } else {
        let rest = content.skip(4);
        match first_from(rest, "\n---"@, 0) {
            None => content,
            Some(i) => "---\n"@ + rest.take(i + 1) + stamp_block_spec(version, digest_spec(content)) + "\n"@
                + rest.skip(i + 1),
        }
    }
}

/// Stamp `content` (a pristine skill) for installation at `version`. The
/// recorded digest is of `content` itself, so stripping the stamp off an
/// installed file and re-digesting what remains verifies it.
pub fn stamp(content: &str, version: &str) -> (r: String)
    ensures
        r@ == stamp_spec(content@, version@),
{
    let block = stamp_block(version, digest(content).as_str());
    let c = chars_of(content);
    proof {
        reveal_strlit("---\n");
        reveal_strlit("\n---");
        reveal_strlit("\n");
    }
    if !has_prefix(&c, &chars_of("---\n")) {
        return crate::text::owned(content);
    }
    assert(c@.len() >= 4);
    let rest = slice(&c, 4, c.len());
    assert(rest@ == c@.skip(4));
    let pat = chars_of("\n---");
    let found = find(&rest, &pat);
    proof {
        lemma_first_from(rest@, pat@, 0);
    }
    match found {
        None => crate::text::owned(content),
        Some(i) => {
            assert(occurs_at(rest@, pat@, i as int));
            let mut out = chars_of("---\n");
            push_all(&mut out, &slice(&rest, 0, i + 1));
            push_all(&mut out, &block);
            out.push('\n');
            push_all(&mut out, &slice(&rest, i + 1, rest.len()));
            assert(rest@.take(i + 1) == rest@.subrange(0, i + 1));
            assert(rest@.skip(i + 1) == rest@.subrange(i + 1, rest@.len() as int));
            assert(out@ =~= "---\n"@ + rest@.take(i + 1) + stamp_block_spec(version@, digest_spec(content@)) + "\n"@ + rest@.skip(i + 1));
            string_of(&out)
        },
    }
}

/// Provenance recovered from an installed skill.
pub struct Stamp {
    pub version: String,
    pub digest: String,
}

/// The reader's state over an installed file's lines.
pub struct StampScan {
    pub version: Option<Seq<char>>,
    pub dig: Option<Seq<char>>,
    pub kept: Seq<Seq<char>>,
    pub fence: nat,
    pub in_block: bool,
}

/// A stamp value: trimmed, surrounding `"` chars removed.
pub open spec fn strip_quotes_front(s: Seq<char>) -> Seq<char>
    decreases s.len(),
{
    if s.len() > 0 && s[0] == '"' {
        strip_quotes_front(s.drop_first())
    } else {
        s
    }
}

pub open spec fn strip_quotes_back(s: Seq<char>) -> Seq<char>
    decreases s.len(),
{
    if s.len() > 0 && s.last() == '"' {
        strip_quotes_back(s.drop_last())
    } else {
        s
    }
}

pub open spec fn stamp_value(v: Seq<char>) -> Seq<char> {
    strip_quotes_back(strip_quotes_front(trim_seq(v)))
}

/// One line's effect: fences are kept and counted; inside the frontmatter
/// our `metadata:` block and its two keys are dropped, anything else there
/// ends the block and is kept.
pub open spec fn scan_step(st: StampScan, line: Seq<char>) -> StampScan {
    let t = trim_seq(line);
    if t == "---"@ {
        StampScan { fence: st.fence + 1, in_block: false, kept: st.kept.push(line), ..st }
    } else if st.fence == 1 && t == "metadata:"@ {
        StampScan { in_block: true, ..st }
    } else if st.fence == 1 && st.in_block && starts_with(t, "yaks-version:"@) {
        StampScan { version: Some(stamp_value(t.skip(13))), ..st }
    } else if st.fence == 1 && st.in_block && starts_with(t, "yaks-digest:"@) {
        StampScan { dig: Some(stamp_value(t.skip(12))), ..st }
    } else if st.fence == 1 && st.in_block {
        StampScan { in_block: false, kept: st.kept.push(line), ..st }
    } else {
        StampScan { kept: st.kept.push(line), ..st }
    }
}

pub open spec fn scan_fold(ls: Seq<Seq<char>>) -> StampScan
    decreases ls.len(),
{
    if ls.len() == 0 {
        StampScan { version: None, dig: None, kept: seq![], fence: 0, in_block: false }
    } else {
        scan_step(scan_fold(ls.drop_last()), ls.last())
    }
}

/// The stamp of an installed skill and its content as originally written,
/// or `None` when it carries no stamp.
pub open spec fn read_stamp_spec(installed: Seq<char>) -> Option<(Seq<char>, Seq<char>, Seq<char>)> {
    let st = scan_fold(lines_seq(installed));
    match (st.version, st.dig) {
        (Some(v), Some(d)) => Some((
            v,
            d,
            join_seq(st.kept, seq!['\n']) + if installed.len() > 0 && installed.last() == '\n' {
                seq!['\n']
            } else {
                seq![]
            },
        )),
        _ => None,
    }
}

fn stamp_value_exec(v: &[char]) -> (r: Vec<char>)
    ensures
        r@ == stamp_value(v@),
{
    let t = trim(v);
    let mut a: usize = 0;
    assert(t@.skip(0) == t@);
    while a < t.len() && t[a] == '"'
        invariant
            a <= t.len(),
            strip_quotes_front(t@) == strip_quotes_front(t@.skip(a as int)),
        decreases t.len() - a,
    {
        assert(t@.skip(a as int).drop_first() == t@.skip(a + 1));
        a += 1;
    }
    let ghost f = t@.skip(a as int);
    assert(strip_quotes_front(f) == f);
    let mut b = t.len();
    assert(f.take(f.len() as int) == f);
    while b > a && t[b - 1] == '"'
        invariant
            a <= b <= t.len(),
            f == t@.skip(a as int),
            strip_quotes_back(f) == strip_quotes_back(f.take(b - a)),
        decreases b,
    {
        assert(f.take(b - a).drop_last() == f.take(b - a - 1));
        assert(f.take(b - a).last() == t@[b - 1]);
        b -= 1;
    }
    assert(f.take(b - a) == t@.subrange(a as int, b as int));
    slice(&t, a, b)
}

/// Split an installed skill into its stamp and the content as originally
/// written (the stamp lines removed). `None` when the file carries no
/// recognizable stamp: an unmanaged file, never clobbered.
pub fn read_stamp(installed: &str) -> (r: Option<(Stamp, String)>)
    ensures
        match r {
            Some((s, body)) => read_stamp_spec(installed@) == Some((s.version@, s.digest@, body@)),
            None => read_stamp_spec(installed@) is None,
        },
{
    let ls = lines(&chars_of(installed));
    let ghost lv = lines_seq(installed@);
    let mut version: Option<Vec<char>> = None;
    let mut dig: Option<Vec<char>> = None;
    let mut kept: Vec<Vec<char>> = Vec::new();
    let mut fence: usize = 0;
    let mut in_block = false;
    let mut i: usize = 0;
    proof {
        reveal_strlit("---");
        reveal_strlit("metadata:");
        reveal_strlit("yaks-version:");
        reveal_strlit("yaks-digest:");
        assert(kept@.map_values(|v: Vec<char>| v@) =~= Seq::<Seq<char>>::empty());
    }
    while i < ls.len()
        invariant
            i <= ls.len(),
            ls@.map_values(|v: Vec<char>| v@) == lv,
            fence <= i,
            ({
                let st = scan_fold(lv.take(i as int));
                &&& st.version == match version { Some(v) => Some(v@), None => None::<Seq<char>> }
                &&& st.dig == match dig { Some(v) => Some(v@), None => None::<Seq<char>> }
                &&& st.kept == kept@.map_values(|v: Vec<char>| v@)
                &&& st.fence == fence as nat
                &&& st.in_block == in_block
            }),
        decreases ls.len() - i,
    {
        let line = &ls[i];
        proof {
            assert(lv.take(i + 1).drop_last() == lv.take(i as int));
            assert(lv.take(i + 1).last() == line@);
        }
        let t = trim(line);
        let ghost kb = kept@;
        proof {
            reveal_strlit("---");
            reveal_strlit("metadata:");
            reveal_strlit("yaks-version:");
            reveal_strlit("yaks-digest:");
        }
        if eq_str(&t, "---") {
            fence += 1;
            in_block = false;
            kept.push(copy_chars(line));
            assert(kept@.map_values(|v: Vec<char>| v@) =~= kb.map_values(|v: Vec<char>| v@).push(line@));
        } else if fence == 1 && eq_str(&t, "metadata:") {
            in_block = true;
        } else if fence == 1 && in_block && has_prefix(&t, &chars_of("yaks-version:")) {
            assert(t@.len() >= 13);
            version = Some(stamp_value_exec(&slice(&t, 13, t.len())));
            assert(t@.skip(13) == t@.subrange(13, t@.len() as int));
        } else if fence == 1 && in_block && has_prefix(&t, &chars_of("yaks-digest:")) {
            assert(t@.len() >= 12);
            dig = Some(stamp_value_exec(&slice(&t, 12, t.len())));
            assert(t@.skip(12) == t@.subrange(12, t@.len() as int));
        } else {
            if fence == 1 && in_block {
                in_block = false;
            }
            kept.push(copy_chars(line));
            assert(kept@.map_values(|v: Vec<char>| v@) =~= kb.map_values(|v: Vec<char>| v@).push(line@));
        }
        i += 1;
    }
    assert(lv.take(ls.len() as int) == lv);
    let (v, d) = match (version, dig) {
        (Some(v), Some(d)) => (v, d),
        _ => return None,
    };
    let mut nl: Vec<char> = Vec::new();
    nl.push('\n');
    assert(nl@ =~= seq!['\n']);
    let mut body = join(&kept, &nl);
    let c = chars_of(installed);
    if c.len() > 0 && c[c.len() - 1] == '\n' {
        let ghost bb = body@;
        body.push('\n');
        assert(body@ =~= bb + seq!['\n']);
    } else {
        assert(body@ =~= body@ + Seq::<char>::empty());
    }
    Some((Stamp { version: string_of(&v), digest: string_of(&d) }, string_of(&body)))
}

// ---------------------------------------------------------------------------
// versions
// ---------------------------------------------------------------------------

pub open spec fn version_sep(c: char) -> bool {
    c == '.' || c == '-' || c == '+'
}

/// The index of the first version separator at or after `i`.
pub open spec fn next_sep(s: Seq<char>, i: int) -> int
    decreases s.len() - i,
{
    if i < 0 || i >= s.len() || version_sep(s[i]) {
        i
    } else {
        next_sep(s, i + 1)
    }
}

/// The pieces of `s` from `i` on, split at every version separator.
pub open spec fn version_pieces(s: Seq<char>, i: int) -> Seq<Seq<char>>
    decreases s.len() - i, 1int,
{
    if i < 0 || i > s.len() {
        seq![]
    } else {
        let e = next_sep(s, i);
        if e < i || e >= s.len() {
            seq![s.subrange(i, s.len() as int)]
        } else {
            seq![s.subrange(i, e)] + version_pieces(s, e + 1)
        }
    }
}

/// `str::parse::<u64>`, or 0 when it fails.
pub open spec fn piece_value(p: Seq<char>) -> u64 {
    let b = u8_body(p);
    if b.len() > 0 && (forall|i: int| 0 <= i < b.len() ==> is_digit(b[i])) && digits_value(b) <= u64::MAX {
        digits_value(b) as u64
    } else {
        0
    }
}

/// The numeric components of a dotted version.
pub open spec fn version_parts(v: Seq<char>) -> Seq<u64> {
    version_pieces(v, 0).map_values(|p: Seq<char>| piece_value(p))
}

pub open spec fn part_at(x: Seq<u64>, i: int) -> u64 {
    if 0 <= i < x.len() {
        x[i]
    } else {
        0
    }
}

/// Component-wise comparison from `i` on, missing components counting 0.
pub open spec fn parts_gt(x: Seq<u64>, y: Seq<u64>, i: int) -> bool
    decreases (if x.len() > y.len() { x.len() } else { y.len() }) - i,
{
    if i < 0 || (i >= x.len() && i >= y.len()) {
        false
    } else if part_at(x, i) != part_at(y, i) {
        part_at(x, i) > part_at(y, i)
    } else {
        parts_gt(x, y, i + 1)
    }
}

proof fn lemma_digits_value_mono(s: Seq<char>, k: int)
    requires
        0 <= k <= s.len(),
        forall|i: int| 0 <= i < s.len() ==> is_digit(s[i]),
    ensures
        digits_value(s.take(k)) <= digits_value(s),
    decreases s.len(),
{
    if k < s.len() {
        assert(s.drop_last().take(k) == s.take(k));
        lemma_digits_value_mono(s.drop_last(), k);
    } else {
        assert(s.take(k) == s);
    }
}

fn piece_value_exec(s: &[char]) -> (r: u64)
    ensures
        r == piece_value(s@),
{
    let from: usize = if s.len() > 0 && s[0] == '+' { 1 } else { 0 };
    let ghost b = u8_body(s@);
    assert(b == s@.skip(from as int));
    if from >= s.len() {
        return 0;
    }
    let mut v: u64 = 0;
    let mut i = from;
    assert(b.take(0) =~= Seq::<char>::empty());
    while i < s.len()
        invariant
            from <= i <= s.len(),
            b == s@.skip(from as int),
            b == u8_body(s@),
            forall|j: int| from <= j < i ==> is_digit(s@[j]),
            v == digits_value(b.take(i - from)),
        decreases s.len() - i,
    {
        if !digit(s[i]) {
            assert(!is_digit(b[i - from]));
            assert(!(forall|j: int| 0 <= j < b.len() ==> is_digit(b[j])));
            return 0;
        }
        let d = (s[i] as u32 - '0' as u32) as u64;
        proof {
            assert(b.take(i - from + 1).drop_last() == b.take(i - from));
            assert(b.take(i - from + 1).last() == s@[i as int]);
        }
        if v > (u64::MAX - d) / 10 {
            proof {
                assert(digits_value(b.take(i - from + 1)) == v * 10 + d);
                assert(v * 10 + d > u64::MAX) by (nonlinear_arith)
                    requires v > (u64::MAX - d) / 10, d < 10;
                if forall|j: int| 0 <= j < b.len() ==> is_digit(b[j]) {
                    lemma_digits_value_mono(b, i - from + 1);
                }
            }
            return 0;
        }
        assert(v * 10 + d <= u64::MAX) by (nonlinear_arith)
            requires v <= (u64::MAX - d) / 10, d < 10;
        v = v * 10 + d;
        i += 1;
    }
    assert(b.take(s.len() - from) == b);
    v
}

fn parts_exec(v: &str) -> (r: Vec<u64>)
    ensures
        r@ == version_parts(v@),
{
    let s = chars_of(v);
    let mut r: Vec<u64> = Vec::new();
    let mut i: usize = 0;
    assert(r@ + version_pieces(s@, 0).map_values(|p: Seq<char>| piece_value(p)) == version_parts(v@));
    loop
        invariant
            i <= s.len(),
            s@ == v@,
            r@ + version_pieces(s@, i as int).map_values(|p: Seq<char>| piece_value(p)) == version_parts(v@),
        decreases s.len() - i,
    {
        let mut e = i;
        while e < s.len() && !(s[e] == '.' || s[e] == '-' || s[e] == '+')
            invariant
                i <= e <= s.len(),
                next_sep(s@, i as int) == next_sep(s@, e as int),
            decreases s.len() - e,
        {
            e += 1;
        }
        let piece = slice(&s, i, e);
        let pv = piece_value_exec(&piece);
        let ghost rb = r@;
        r.push(pv);
        if e >= s.len() {
            proof {
                assert(version_pieces(s@, i as int) == seq![s@.subrange(i as int, s@.len() as int)]);
                assert(version_pieces(s@, i as int).map_values(|p: Seq<char>| piece_value(p)) =~= seq![pv]);
                assert(r@ =~= rb + seq![pv]);
            }
            return r;
        }
        proof {
            let rest = version_pieces(s@, e + 1);
            assert(version_pieces(s@, i as int) == seq![s@.subrange(i as int, e as int)] + rest);
            assert(version_pieces(s@, i as int).map_values(|p: Seq<char>| piece_value(p)) =~= seq![pv] + rest.map_values(|p: Seq<char>| piece_value(p)));
            assert(r@ + rest.map_values(|p: Seq<char>| piece_value(p)) =~= rb + (seq![pv] + rest.map_values(|p: Seq<char>| piece_value(p))));
        }
        i = e + 1;
    }
}

proof fn lemma_parts_gt_asym(x: Seq<u64>, y: Seq<u64>, i: int)
    ensures
        !(parts_gt(x, y, i) && parts_gt(y, x, i)),
        !parts_gt(x, x, i),
    decreases (if x.len() > y.len() { x.len() } else { y.len() }) - i,
{
    if !(i < 0 || (i >= x.len() && i >= y.len())) {
        lemma_parts_gt_asym(x, y, i + 1);
    }
    if !(i < 0 || i >= x.len()) {
        lemma_parts_gt_self(x, i + 1);
    }
}

proof fn lemma_parts_gt_self(x: Seq<u64>, i: int)
    ensures
        !parts_gt(x, x, i),
    decreases x.len() - i,
{
    if !(i < 0 || i >= x.len()) {
        lemma_parts_gt_self(x, i + 1);
    }
}

/// Version order is strict: no version is newer than itself, and of two
/// versions at most one is newer than the other.
pub proof fn version_order_is_strict(a: Seq<char>, b: Seq<char>)
    ensures
        !parts_gt(version_parts(a), version_parts(a), 0),
        !(parts_gt(version_parts(a), version_parts(b), 0) && parts_gt(version_parts(b), version_parts(a), 0)),
{
    lemma_parts_gt_self(version_parts(a), 0);
    lemma_parts_gt_asym(version_parts(a), version_parts(b), 0);
}

/// Compare dotted numeric versions (`0.0.10` > `0.0.9`). Components split
/// at `.`, `-` and `+`; a non-numeric component counts as 0, as does a
/// missing one.
pub fn version_gt(a: &str, b: &str) -> (r: bool)
    ensures
        r == parts_gt(version_parts(a@), version_parts(b@), 0),
{
    let x = parts_exec(a);
    let y = parts_exec(b);
    let n = if x.len() > y.len() { x.len() } else { y.len() };
    let mut i: usize = 0;
    while i < n
        invariant
            i <= n,
            n == if x@.len() > y@.len() { x@.len() } else { y@.len() },
            x@ == version_parts(a@),
            y@ == version_parts(b@),
            parts_gt(x@, y@, 0) == parts_gt(x@, y@, i as int),
        decreases n - i,
    {
        let l = if i < x.len() { x[i] } else { 0 };
        let m = if i < y.len() { y[i] } else { 0 };
        assert(l == part_at(x@, i as int) && m == part_at(y@, i as int));
        if l != m {
            return l > m;
        }
        i += 1;
    }
    false
}

// ---------------------------------------------------------------------------
// states
// ---------------------------------------------------------------------------

/// What an installed skill looks like relative to this build's copy.
#[derive(Debug, Clone, PartialEq, Eq)]
pub enum SkillState {
    /// Nothing installed at that path.
    Absent,
    /// Identical to what this build would write.
    Current,
    /// Untouched since written, and this build is strictly newer: the only
    /// state safe to upgrade automatically.
    Upgradable { from: String },
    /// Untouched since written, but this build is not newer while the
    /// content differs; left alone so two builds never ping-pong.
    Held { installed: String },
    /// Edited since written; never overwritten without force.
    Modified { installed: String },
    /// Unstamped but identical to what this build would write: adopting it
    /// destroys nothing.
    Adoptable,
    /// Unstamped and different: someone else's file.
    Unmanaged,
    /// The target resolves into a yaks checkout's own `skills/`; never
    /// written.
    SourceLinked,
}

/// A skill state, with its version as text.
pub enum StateView {
    Absent,
    Current,
    Upgradable(Seq<char>),
    Held(Seq<char>),
    Modified(Seq<char>),
    Adoptable,
    Unmanaged,
    SourceLinked,
}

pub open spec fn state_view(s: SkillState) -> StateView {
    match s {
        SkillState::Absent => StateView::Absent,
        SkillState::Current => StateView::Current,
        SkillState::Upgradable { from } => StateView::Upgradable(from@),
        SkillState::Held { installed } => StateView::Held(installed@),
        SkillState::Modified { installed } => StateView::Modified(installed@),
        SkillState::Adoptable => StateView::Adoptable,
        SkillState::Unmanaged => StateView::Unmanaged,
        SkillState::SourceLinked => StateView::SourceLinked,
    }
}

pub open spec fn needs_force_spec(s: SkillState) -> bool {
    s is Modified || s is Unmanaged || s is Held || s is SourceLinked
}

impl SkillState {
    /// Writing would override something this build has no business
    /// overwriting silently: a local edit, another tool's file, a newer
    /// install, or the source itself.
    pub fn needs_force(&self) -> (b: bool)
        ensures
            b == needs_force_spec(*self),
    {
        match self {
            SkillState::Modified { .. } | SkillState::Unmanaged | SkillState::Held { .. }
            | SkillState::SourceLinked => true,
            _ => false,
        }
    }

    /// The blocker is local content that would be destroyed, as opposed to a
    /// merely newer install.
    pub fn has_local_edits(&self) -> (b: bool)
        ensures
            b == (*self is Modified || *self is Unmanaged),
    {
        match self {
            SkillState::Modified { .. } | SkillState::Unmanaged => true,
            _ => false,
        }
    }

    /// Short word for output.
    pub fn word(&self) -> (r: &'static str)
        ensures
            r@ == match *self {
                SkillState::Absent => "absent"@,
                SkillState::Current => "current"@,
                SkillState::Upgradable { .. } => "stale"@,
                SkillState::Held { .. } => "held"@,
                SkillState::Modified { .. } => "modified"@,
                SkillState::Adoptable => "adoptable"@,
                SkillState::Unmanaged => "unmanaged"@,
                SkillState::SourceLinked => "source"@,
            },
    {
        match self {
            SkillState::Absent => "absent",
            SkillState::Current => "current",
            SkillState::Upgradable { .. } => "stale",
            SkillState::Held { .. } => "held",
            SkillState::Modified { .. } => "modified",
            SkillState::Adoptable => "adoptable",
            SkillState::Unmanaged => "unmanaged",
            SkillState::SourceLinked => "source",
        }
    }
}

/// The state of an installed copy of `content`.
pub open spec fn classify_spec(source_linked: bool, installed: Option<Seq<char>>, content: Seq<char>) -> StateView {
    if source_linked {
        StateView::SourceLinked
    } else {
        match installed {
            None => StateView::Absent,
            Some(inst) => match read_stamp_spec(inst) {
                None => if inst == content {
                    StateView::Adoptable
                } else {
                    StateView::Unmanaged
                },
                Some((v, d, written)) => if digest_spec(written) != d {
                    StateView::Modified(v)
                } else if written == content {
                    StateView::Current
                } else if parts_gt(version_parts(version_spec()), version_parts(v), 0) {
                    StateView::Upgradable(v)
                } else {
                    StateView::Held(v)
                },
            },
        }
    }
}

/// Classify the installed copy of `content`: `source_linked` when the
/// target resolves into a yaks checkout's own skills, `installed` the text
/// at the target (`None` when there is none).
pub fn inspect(source_linked: bool, installed: Option<&str>, content: &str) -> (r: SkillState)
    ensures
        state_view(r) == classify_spec(
            source_linked,
            match installed {
                Some(s) => Some(s@),
                None => None,
            },
            content@,
        ),
{
    if source_linked {
        return SkillState::SourceLinked;
    }
    let inst = match installed {
        Some(i) => i,
        None => return SkillState::Absent,
    };
    match read_stamp(inst) {
        None => {
            if same(inst, content) {
                SkillState::Adoptable
            } else {
                SkillState::Unmanaged
            }
        },
        Some((st, written)) => {
            if !same(digest(written.as_str()).as_str(), st.digest.as_str()) {
                return SkillState::Modified { installed: st.version };
            }
            if same(written.as_str(), content) {
                return SkillState::Current;
            }
            if version_gt(version(), st.version.as_str()) {
                SkillState::Upgradable { from: st.version }
            } else {
                SkillState::Held { installed: st.version }
            }
        },
    }
}

/// One skill's situation in a skills directory.
pub struct Status {
    pub name: String,
    pub path: String,
    pub state: SkillState,
}

/// Result of considering one skill for installation.
pub struct Installed {
    pub name: String,
    pub path: String,
    /// What the target looked like before.
    pub before: SkillState,
    /// Whether the file was (re)written.
    pub wrote: bool,
}

impl Installed {
    /// The file was left alone because it would need force.
    pub fn blocked(&self) -> (b: bool)
        ensures
            b == (!self.wrote && needs_force_spec(self.before)),
    {
        !self.wrote && self.before.needs_force()
    }
}

/// Whether an install writes a skill found in state `before`: never when it
/// is current or the source itself, and not without `force` when writing
/// would override something.
pub fn install_writes(before: &SkillState, force: bool) -> (b: bool)
    ensures
        b == !(*before is Current || *before is SourceLinked || (needs_force_spec(*before) && !force)),
{
    match before {
        SkillState::Current => false,
        SkillState::SourceLinked => false,
        s => !(s.needs_force() && !force),
    }
}

/// Whether the startup sync writes a skill found in state `s`: only a
/// missing or cleanly stale one.
pub fn sync_writes(s: &SkillState) -> (b: bool)
    ensures
        b == (*s is Absent || *s is Upgradable),
{
    match s {
        SkillState::Absent | SkillState::Upgradable { .. } => true,
        _ => false,
    }
}

/// A manifest line `name = "yaks"`, spaces ignored.
pub open spec fn names_yaks(l: Seq<char>) -> bool {
    trim_seq(l).filter(|c: char| c != ' ') == "name=\"yaks\""@
}

/// Whether a `Cargo.toml` text is the yaks package's.
pub fn is_yaks_manifest(text: &str) -> (b: bool)
    ensures
        b == exists|i: int| 0 <= i < lines_seq(text@).len() && names_yaks(#[trigger] lines_seq(text@)[i]),
{
    let ls = lines(&chars_of(text));
    let ghost lv = lines_seq(text@);
    let mut i: usize = 0;
    while i < ls.len()
        invariant
            i <= ls.len(),
            ls@.map_values(|v: Vec<char>| v@) == lv,
            lv == lines_seq(text@),
            forall|j: int| 0 <= j < i ==> !names_yaks(#[trigger] lv[j]),
        decreases ls.len() - i,
    {
        let t = trim(&ls[i]);
        let mut compact: Vec<char> = Vec::new();
        let mut k: usize = 0;
        let ghost keep = |c: char| c != ' ';
        assert(t@.take(0).filter(keep) =~= Seq::<char>::empty());
        while k < t.len()
            invariant
                k <= t.len(),
                keep == (|c: char| c != ' '),
                compact@ == t@.take(k as int).filter(keep),
            decreases t.len() - k,
        {
            proof {
                assert(t@.take(k + 1) == t@.take(k as int).push(t@[k as int]));
                t@.take(k as int).lemma_filter_push(t@[k as int], keep);
            }
            if t[k] != ' ' {
                compact.push(t[k]);
            }
            k += 1;
        }
        assert(t@.take(t.len() as int) == t@);
        assert(lv[i as int] == ls@[i as int]@);
        if eq_str(&compact, "name=\"yaks\"") {
            assert(names_yaks(lv[i as int]));
            return true;
        }
        i += 1;
    }
    false
}

} // verus!
