//! The farm's on-disk layout, as text: the schema marker, `.yaks` pointer
//! files, and the outcomes of the store's edits.

use vstd::prelude::*;
use crate::text::{chars_of, string_of, slice, trim, trim_seq, lines, lines_seq, find, first_from, occurs_at, lemma_first_from, eq_str, is_digit, digit};
use crate::store::read::{unquote, unquote_spec, non_empty, non_empty_spec, digits_value, u8_body};
use crate::model::{ostr, Status};

verus! {

/// On-disk schema version this build understands.
pub const SCHEMA: u32 = 3;

/// How a farm's schema marker compares with [`SCHEMA`].
#[derive(Debug, Clone, Copy, PartialEq, Eq, Structural)]
pub enum SchemaStatus {
    Compatible,
    Older(u32),
    Newer(u32),
}

/// `str::parse::<u32>`: an optional `+`, then at least one digit, with a
/// value that fits.
pub open spec fn parse_u32_spec(s: Seq<char>) -> Option<u32> {
    let b = u8_body(s);
    if b.len() > 0 && (forall|i: int| 0 <= i < b.len() ==> is_digit(b[i])) && digits_value(b)
        <= u32::MAX {
        Some(digits_value(b) as u32)
    } else {
        None
    }
}

proof fn lemma_digits_value_mono(s: Seq<char>, k: int)
    requires
        0 <= k <= s.len(),
        forall|i: int| 0 <= i < s.len() ==> is_digit(s[i]),
    ensures
        digits_value(s.take(k)) <= digits_value(s),
    decreases s.len(),
{
    if k < s.len() {
        assert(s.drop_last().take(k) == s.take(k));
        lemma_digits_value_mono(s.drop_last(), k);
    } else {
        assert(s.take(k) == s);
    }
}

pub fn parse_u32(s: &[char]) -> (r: Option<u32>)
    ensures
        r == parse_u32_spec(s@),
{
    let from: usize = if s.len() > 0 && s[0] == '+' { 1 } else { 0 };
    let ghost b = u8_body(s@);
    assert(b == s@.skip(from as int));
    if from >= s.len() {
        return None;
    }
    let mut v: u64 = 0;
    let mut i = from;
    assert(b.take(0) =~= Seq::<char>::empty());
    while i < s.len()
        invariant
            from <= i <= s.len(),
            b == s@.skip(from as int),
            b == u8_body(s@),
            forall|j: int| from <= j < i ==> is_digit(s@[j]),
            v == digits_value(b.take(i - from)),
            v <= u32::MAX,
        decreases s.len() - i,
    {
        if !digit(s[i]) {
            assert(!is_digit(b[i - from]));
            assert(!(forall|j: int| 0 <= j < b.len() ==> is_digit(b[j])));
            assert(parse_u32_spec(s@) is None);
            return None;
        }
        let d = (s[i] as u32 - '0' as u32) as u64;
        proof {
            assert(b.take(i - from + 1).drop_last() == b.take(i - from));
            assert(b.take(i - from + 1).last() == s@[i as int]);
        }
        v = v * 10 + d;
        assert(v == digits_value(b.take(i - from + 1)));
        if v > u32::MAX as u64 {
            proof {
                if forall|j: int| 0 <= j < b.len() ==> is_digit(b[j]) {
                    lemma_digits_value_mono(b, i - from + 1);
                }
                assert(parse_u32_spec(s@) is None);
            }
            return None;
        }
        i += 1;
    }
    assert(b.take(s.len() - from) == b);
    Some(v as u32)
}

/// What a schema marker says: none, or one that is not a number, counts as
/// compatible (hand-made farms are not blocked).
pub open spec fn schema_status_spec(marker: Option<Seq<char>>) -> SchemaStatus {
    match marker {
        None => SchemaStatus::Compatible,
        Some(raw) => match parse_u32_spec(trim_seq(raw)) {
            None => SchemaStatus::Compatible,
            Some(v) => if v > SCHEMA {
                SchemaStatus::Newer(v)
            } else if v < SCHEMA {
                SchemaStatus::Older(v)
            } else {
                SchemaStatus::Compatible
            },
        },
    }
}

/// Compare the text of a farm's `.yaks/schema` marker (`None` when the file
/// is missing) against [`SCHEMA`].
pub fn schema_status(marker: Option<&str>) -> (r: SchemaStatus)
    ensures
        r == schema_status_spec(match marker { Some(m) => Some(m@), None => None }),
{
    match marker {
        None => SchemaStatus::Compatible,
        Some(raw) => match parse_u32(&trim(&chars_of(raw))) {
            None => SchemaStatus::Compatible,
            Some(v) => if v > SCHEMA {
                SchemaStatus::Newer(v)
            } else if v < SCHEMA {
                SchemaStatus::Older(v)
            } else {
                SchemaStatus::Compatible
            },
        },
    }
}

/// A resolved farm: its `.yaks/` root, plus an optional per-repo herd prefix
/// supplied by a pointer file.
pub struct Discovered {
    pub root: String,
    /// The `prefix:` from a `.yaks` pointer file, if discovery followed one.
    pub prefix: Option<String>,
}

/// One pointer-file line's effect on the `(path, herd)` read so far.
pub open spec fn pointer_step(acc: (Option<Seq<char>>, Option<Seq<char>>), line: Seq<char>) -> (
    Option<Seq<char>>,
    Option<Seq<char>>,
) {
    let t = trim_seq(line);
    if t.len() == 0 || t[0] == '#' {
        acc
    } else {
        match first_from(t, seq![':'], 0) {
            None => acc,
            Some(c) => {
                let k = trim_seq(t.take(c));
                let v = unquote_spec(t.skip(c + 1));
                if k == "path"@ {
                    (non_empty_spec(v), acc.1)
                } else if k == "herd"@ || k == "prefix"@ {
                    (acc.0, non_empty_spec(v))
                } else {
                    acc
                }
            },
        }
    }
}

pub open spec fn pointer_fold(ls: Seq<Seq<char>>) -> (Option<Seq<char>>, Option<Seq<char>>)
    decreases ls.len(),
{
    if ls.len() == 0 {
        (None, None)
    } else {
        pointer_step(pointer_fold(ls.drop_last()), ls.last())
    }
}

/// Parse the text of a `.yaks` pointer file: `key: value` lines recognizing
/// `path` (required) and `herd` or its legacy alias `prefix` (optional); a
/// later line wins. Blank lines and `#` comments are ignored. `None` when no
/// non-empty `path:` is given.
pub fn parse_pointer(text: &str) -> (r: Option<(String, Option<String>)>)
    ensures
        match r {
            Some((p, h)) => pointer_fold(lines_seq(text@)).0 == Some(p@) && pointer_fold(
                lines_seq(text@),
            ).1 == ostr(h),
            None => pointer_fold(lines_seq(text@)).0 is None,
        },
{
    let ls = lines(&chars_of(text));
    let mut path: Option<String> = None;
    let mut herd: Option<String> = None;
    let mut i: usize = 0;
    while i < ls.len()
        invariant
            i <= ls.len(),
            ls@.map_values(|l: Vec<char>| l@) == lines_seq(text@),
            pointer_fold(lines_seq(text@).take(i as int)) == (ostr(path), ostr(herd)),
        decreases ls.len() - i,
    {
        let ghost acc = (ostr(path), ostr(herd));
        let line = &ls[i];
        proof {
            let lv = ls@.map_values(|l: Vec<char>| l@);
            assert(lv.take(i + 1).drop_last() == lv.take(i as int));
            assert(lv.take(i + 1).last() == line@);
        }
        let t = trim(line);
        if t.len() > 0 && t[0] != '#' {
            let mut colon: Vec<char> = Vec::new();
            colon.push(':');
            assert(colon@ =~= seq![':']);
            let found = find(&t, &colon);
            proof {
                lemma_first_from(t@, colon@, 0);
            }
            match found {
                None => {},
                Some(c) => {
                    assert(occurs_at(t@, colon@, c as int));
                    assert(c < t.len());
                    let k = trim(&slice(&t, 0, c));
                    let v = unquote(&slice(&t, c + 1, t.len()));
                    assert(t@.take(c as int) == t@.subrange(0, c as int));
                    assert(t@.skip(c + 1) == t@.subrange(c + 1, t@.len() as int));
                    if eq_str(&k, "path") {
                        proof { reveal_strlit("path"); }
                        path = non_empty(v);
                    } else if eq_str(&k, "herd") || eq_str(&k, "prefix") {
                        proof { reveal_strlit("herd"); reveal_strlit("prefix"); }
                        herd = non_empty(v);
                    } else {
                        proof { reveal_strlit("path"); reveal_strlit("herd"); reveal_strlit("prefix"); }
                    }
                },
            }
        }
        i += 1;
    }
    assert(lines_seq(text@).take(ls.len() as int) == lines_seq(text@));
    match path {
        Some(p) => Some((p, herd)),
        None => None,
    }
}

/// Result of a status move.
#[derive(Debug, Clone, Copy, PartialEq, Eq, Structural)]
pub enum MoveOutcome {
    Moved,
    AlreadyThere,
    NotFound,
}

/// Outcome of a dependency edit.
#[derive(Debug, Clone, Copy, PartialEq, Eq, Structural)]
pub enum DepOutcome {
    Added,
    AlreadyDep,
    Removed,
    NotDep,
    TaskNotFound,
    DepNotFound,
}

/// Outcome of a reparent attempt.
#[derive(Debug, Clone, PartialEq, Eq)]
pub enum Reparent {
    Done { new_parent: Option<String> },
    Error(String),
}

/// The task files on disk, as (id, status directory) pairs.
pub open spec fn file_views(f: Seq<(String, Status)>) -> Seq<(Seq<char>, Status)> {
    f.map_values(|e: (String, Status)| (e.0@, e.1))
}

/// The status directory a probe for `<id>.md` finds first (hairy, shaving,
/// shorn, dead).
pub open spec fn file_status(files: Seq<(Seq<char>, Status)>, id: Seq<char>) -> Option<Status> {
    if files.contains((id, Status::Hairy)) {
        Some(Status::Hairy)
    } else if files.contains((id, Status::Shaving)) {
        Some(Status::Shaving)
    } else if files.contains((id, Status::Shorn)) {
        Some(Status::Shorn)
    } else if files.contains((id, Status::Dead)) {
        Some(Status::Dead)
    } else {
        None
    }
}

/// Whether `<status>/<id>.md` is among the files.
pub fn has_file(files: &Vec<(String, Status)>, id: &str, st: Status) -> (b: bool)
    ensures
        b == file_views(files@).contains((id@, st)),
{
    let mut i: usize = 0;
    while i < files.len()
        invariant
            i <= files.len(),
            forall|j: int| 0 <= j < i ==> file_views(files@)[j] != (id@, st),
        decreases files.len() - i,
    {
        if files[i].1 == st && crate::text::same(files[i].0.as_str(), id) {
            assert(file_views(files@)[i as int] == (id@, st));
            return true;
        }
        assert(file_views(files@)[i as int] != (id@, st));
        i += 1;
    }
    false
}

/// Locate a task's current file by id: the first status directory (in
/// lifecycle order) holding `<id>.md`.
pub fn find_task_file(files: &Vec<(String, Status)>, id: &str) -> (r: Option<Status>)
    ensures
        r == file_status(file_views(files@), id@),
{
    if has_file(files, id, Status::Hairy) {
        Some(Status::Hairy)
    } else if has_file(files, id, Status::Shaving) {
        Some(Status::Shaving)
    } else if has_file(files, id, Status::Shorn) {
        Some(Status::Shorn)
    } else if has_file(files, id, Status::Dead) {
        Some(Status::Dead)
    } else {
        None
    }
}

// ---------------------------------------------------------------------------
// ids
// ---------------------------------------------------------------------------

/// One xorshift64 step (shifts 13, 7, 17).
pub open spec fn xorshift_spec(x: u64) -> u64 {
    let a = x ^ (x << 13u64);
    let b = a ^ (a >> 7u64);
    b ^ (b << 17u64)
}

/// The state after `k` steps from `seed`.
pub open spec fn xorshift_iter(seed: u64, k: nat) -> u64
    decreases k,
{
    if k == 0 {
        seed
    } else {
        xorshift_spec(xorshift_iter(seed, (k - 1) as nat))
    }
}

pub open spec fn hex_digit_spec(d: int) -> char {
    if d < 10 {
        ((d + '0' as int) as u32) as char
    } else {
        ((d - 10 + 'a' as int) as u32) as char
    }
}

/// `n` as four lowercase hex digits (`{n:04x}` for `n < 0x10000`).
pub open spec fn hex4(n: int) -> Seq<char> {
    seq![
        hex_digit_spec((n / 4096) % 16),
        hex_digit_spec((n / 256) % 16),
        hex_digit_spec((n / 16) % 16),
        hex_digit_spec(n % 16),
    ]
}

/// The `k`-th id tried: `<prefix>-<4 hex digits>` from the low 16 bits of
/// the `k+1`-th xorshift state.
pub open spec fn candidate_id(prefix: Seq<char>, seed: u64, k: nat) -> Seq<char> {
    prefix + seq!['-'] + hex4((xorshift_iter(seed, k + 1) & 0xffffu64) as int)
}

/// Whether any status directory holds a file with this id.
pub open spec fn taken(files: Seq<(Seq<char>, Status)>, id: Seq<char>) -> bool {
    exists|s: Status| files.contains((id, s))
}

fn hex_digit(d: u64) -> (c: char)
    requires
        d < 16,
    ensures
        c == hex_digit_spec(d as int),
{
    if d < 10 {
        ((d as u32) + ('0' as u32)) as u8 as char
    } else {
        ((d as u32) - 10 + ('a' as u32)) as u8 as char
    }
}

/// Whether any status directory holds a file with this id.
pub fn is_taken(files: &Vec<(String, Status)>, id: &str) -> (b: bool)
    ensures
        b == taken(file_views(files@), id@),
{
    let mut i: usize = 0;
    while i < files.len()
        invariant
            i <= files.len(),
            forall|j: int| 0 <= j < i ==> file_views(files@)[j].0 != id@,
        decreases files.len() - i,
    {
        if crate::text::same(files[i].0.as_str(), id) {
            assert(file_views(files@)[i as int] == (id@, files@[i as int].1));
            assert(file_views(files@).contains((id@, files@[i as int].1)));
            return true;
        }
        i += 1;
    }
    proof {
        if taken(file_views(files@), id@) {
            let s = choose|s: Status| file_views(files@).contains((id@, s));
            let j = choose|j: int| 0 <= j < file_views(files@).len() && file_views(files@)[j] == (id@, s);
            assert(file_views(files@)[j].0 == id@);
        }
    }
    false
}

/// The first free candidate from the `k`-th draw on, within 1000 draws.
pub open spec fn free_id(files: Seq<(Seq<char>, Status)>, prefix: Seq<char>, seed: u64, k: nat) -> Option<Seq<char>>
    decreases 1000 - k,
{
    if k >= 1000 {
        None
    } else if !taken(files, candidate_id(prefix, seed, k)) {
        Some(candidate_id(prefix, seed, k))
    } else {
        free_id(files, prefix, seed, k + 1)
    }
}

/// Generate a collision-free `<prefix>-<4 lowercase hex>` id: up to 1000
/// xorshift draws from `seed`, the first id no task file has. `None` when
/// every draw collided.
pub fn generate_id(files: &Vec<(String, Status)>, prefix: &str, seed: u64) -> (r: Option<String>)
    ensures
        ostr(r) == free_id(file_views(files@), prefix@, seed, 0),
{
    let mut state = seed;
    let mut k: u64 = 0;
    while k < 1000
        invariant
            k <= 1000,
            state == xorshift_iter(seed, k as nat),
            free_id(file_views(files@), prefix@, seed, 0) == free_id(file_views(files@), prefix@, seed, k as nat),
        decreases 1000 - k,
    {
        let a = state ^ (state << 13u64);
        let b = a ^ (a >> 7u64);
        state = b ^ (b << 17u64);
        assert(state == xorshift_iter(seed, (k + 1) as nat));
        let n = state & 0xffffu64;
        assert(n < 0x10000) by (bit_vector)
            requires n == state & 0xffffu64;
        let mut id: Vec<char> = chars_of(prefix);
        id.push('-');
        id.push(hex_digit((n / 4096) % 16));
        id.push(hex_digit((n / 256) % 16));
        id.push(hex_digit((n / 16) % 16));
        id.push(hex_digit(n % 16));
        let s = string_of(&id);
        assert(s@ =~= candidate_id(prefix@, seed, k as nat));
        if !is_taken(files, s.as_str()) {
            return Some(s);
        }
        k += 1;
    }
    None
}

} // verus!
