//! The farm configuration (`config.yaml`): a tiny indent-aware reader over the
//! YAML subset the tool writes, the global -> herd cascade of defaults, and
//! the text edits that keep the file's other lines byte-for-byte.

use vstd::prelude::*;
use crate::text::{
    chars_of, string_of, slice, eq, eq_str, push_str, copy_chars, trim, trim_seq, lines, lines_seq,
    find, first_from, occurs_at, lemma_first_from, sort_strings, sorted_strs, views_of, join,
    join_seq,
};
use crate::store::read::{unquote, unquote_spec, parse_u8, parse_u8_spec};
use crate::model::{strs};

verus! {

/// Per-herd overrides within a farm. A field left `None`/empty inherits the
/// farm-global value.
pub struct HerdConfig {
    pub default_type: Option<String>,
    pub default_priority: Option<u8>,
    /// Verify commands for this herd, keyed by label (plus `default`); a later
    /// entry for a key overrides an earlier one.
    pub verify: Vec<(String, String)>,
}

/// Config read from `.yaks/config.yaml` (only the keys used).
pub struct Config {
    pub prefix: String,
    pub default_type: String,
    pub default_priority: u8,
    /// When true, embedded editors use vim keybindings; otherwise emacs.
    pub vim_mode: bool,
    /// Default verification commands keyed by label (plus a `default` key);
    /// a later entry for a key overrides an earlier one.
    pub verify: Vec<(String, String)>,
    /// Declared herds and their overrides, each name once.
    pub herds: Vec<(String, HerdConfig)>,
}

pub type KV = Seq<(Seq<char>, Seq<char>)>;

pub open spec fn kv_view(v: Seq<(String, String)>) -> KV {
    v.map_values(|e: (String, String)| (e.0@, e.1@))
}

/// The value of the last entry with key `k`.
pub open spec fn lookup(kv: KV, k: Seq<char>) -> Option<Seq<char>>
    decreases kv.len(),
{
    if kv.len() == 0 {
        None
    } else if kv.last().0 == k {
        Some(kv.last().1)
    } else {
        lookup(kv.drop_last(), k)
    }
}

pub struct HerdView {
    pub default_type: Option<Seq<char>>,
    pub default_priority: Option<u8>,
    pub verify: KV,
}

pub open spec fn ostr(o: Option<String>) -> Option<Seq<char>> {
    crate::model::ostr(o)
}

pub open spec fn herd_view(h: HerdConfig) -> HerdView {
    HerdView { default_type: ostr(h.default_type), default_priority: h.default_priority, verify: kv_view(h.verify@) }
}

pub open spec fn herds_view(v: Seq<(String, HerdConfig)>) -> Seq<(Seq<char>, HerdView)> {
    v.map_values(|e: (String, HerdConfig)| (e.0@, herd_view(e.1)))
}

/// The herd entry named `k`, if declared.
pub open spec fn herd_lookup(hs: Seq<(Seq<char>, HerdView)>, k: Seq<char>) -> Option<HerdView>
    decreases hs.len(),
{
    if hs.len() == 0 {
        None
    } else if hs.last().0 == k {
        Some(hs.last().1)
    } else {
        herd_lookup(hs.drop_last(), k)
    }
}

pub struct ConfigView {
    pub prefix: Seq<char>,
    pub default_type: Seq<char>,
    pub default_priority: u8,
    pub vim_mode: bool,
    pub verify: KV,
    pub herds: Seq<(Seq<char>, HerdView)>,
}

impl View for Config {
    type V = ConfigView;

    open spec fn view(&self) -> ConfigView {
        ConfigView {
            prefix: self.prefix@,
            default_type: self.default_type@,
            default_priority: self.default_priority,
            vim_mode: self.vim_mode,
            verify: kv_view(self.verify@),
            herds: herds_view(self.herds@),
        }
    }
}

/// The herd names, in declaration order.
pub open spec fn herd_names(hs: Seq<(Seq<char>, HerdView)>) -> Seq<Seq<char>> {
    hs.map_values(|e: (Seq<char>, HerdView)| e.0)
}

impl Config {
    /// Each herd is declared once.
    pub open spec fn wf(&self) -> bool {
        herd_names(herds_view(self.herds@)).no_duplicates()
    }
}

pub open spec fn default_type_spec(c: ConfigView, herd: Seq<char>) -> Seq<char> {
    match herd_lookup(c.herds, herd) {
        Some(h) => match h.default_type {
            Some(t) => t,
            None => c.default_type,
        },
        None => c.default_type,
    }
}

pub open spec fn default_priority_spec(c: ConfigView, herd: Seq<char>) -> u8 {
    match herd_lookup(c.herds, herd) {
        Some(h) => match h.default_priority {
            Some(p) => p,
            None => c.default_priority,
        },
        None => c.default_priority,
    }
}

/// One verify lookup key, cascading herd -> global.
pub open spec fn verify_get(c: ConfigView, herd: Option<Seq<char>>, k: Seq<char>) -> Option<Seq<char>> {
    let from_herd = match herd {
        Some(h) => match herd_lookup(c.herds, h) {
            Some(hc) => lookup(hc.verify, k),
            None => None,
        },
        None => None,
    };
    match from_herd {
        Some(v) => Some(v),
        None => lookup(c.verify, k),
    }
}

/// The first of `labels` with a verify entry (label order), else `default`.
pub open spec fn resolve_verify_spec(c: ConfigView, labels: Seq<Seq<char>>, herd: Option<Seq<char>>) -> Option<Seq<char>>
    decreases labels.len(),
{
    if labels.len() == 0 {
        verify_get(c, herd, "default"@)
    } else {
        match verify_get(c, herd, labels[0]) {
            Some(v) => Some(v),
            None => resolve_verify_spec(c, labels.drop_first(), herd),
        }
    }
}

fn kv_get(kv: &Vec<(String, String)>, k: &[char]) -> (r: Option<String>)
    ensures
        crate::model::ostr(r) == lookup(kv_view(kv@), k@),
{
    let mut i = kv.len();
    assert(kv_view(kv@).take(kv.len() as int) == kv_view(kv@));
    while i > 0
        invariant
            i <= kv.len(),
            lookup(kv_view(kv@), k@) == lookup(kv_view(kv@).take(i as int), k@),
        decreases i,
    {
        let ghost t = kv_view(kv@).take(i as int);
        assert(t.last() == (kv@[i - 1].0@, kv@[i - 1].1@));
        assert(t.drop_last() == kv_view(kv@).take(i - 1));
        if eq(&chars_of(kv[i - 1].0.as_str()), k) {
            return Some(kv[i - 1].1.clone());
        }
        i -= 1;
    }
    None
}

pub(crate) fn herd_index(hs: &Vec<(String, HerdConfig)>, k: &[char]) -> (r: Option<usize>)
    ensures
        match r {
            Some(i) => i < hs.len() && hs@[i as int].0@ == k@ && herd_lookup(herds_view(hs@), k@)
                == Some(herd_view(hs@[i as int].1)),
            None => herd_lookup(herds_view(hs@), k@) is None,
        },
{
    let mut i = hs.len();
    assert(herds_view(hs@).take(hs.len() as int) == herds_view(hs@));
    while i > 0
        invariant
            i <= hs.len(),
            herd_lookup(herds_view(hs@), k@) == herd_lookup(herds_view(hs@).take(i as int), k@),
        decreases i,
    {
        let ghost t = herds_view(hs@).take(i as int);
        assert(t.last() == (hs@[i - 1].0@, herd_view(hs@[i - 1].1)));
        assert(t.drop_last() == herds_view(hs@).take(i - 1));
        if eq(&chars_of(hs[i - 1].0.as_str()), k) {
            return Some(i - 1);
        }
        i -= 1;
    }
    None
}

fn copy_kv(kv: &Vec<(String, String)>) -> (r: Vec<(String, String)>)
    ensures
        kv_view(r@) == kv_view(kv@),
{
    let mut r: Vec<(String, String)> = Vec::new();
    let mut i: usize = 0;
    while i < kv.len()
        invariant
            i <= kv.len(),
            kv_view(r@) == kv_view(kv@).take(i as int),
        decreases kv.len() - i,
    {
        let a = kv[i].0.clone();
        let b = kv[i].1.clone();
        let ghost before = r@;
        r.push((a, b));
        assert(kv_view(r@) =~= kv_view(before).push((kv@[i as int].0@, kv@[i as int].1@)));
        assert(kv_view(kv@).take(i + 1) =~= kv_view(kv@).take(i as int).push((kv@[i as int].0@, kv@[i as int].1@)));
        i += 1;
    }
    assert(kv_view(kv@).take(kv.len() as int) == kv_view(kv@));
    r
}

impl Config {
    /// The known-herd set: the declared herds sorted, or just `prefix` when
    /// none are declared.
    pub fn known_herds(&self) -> (r: Vec<String>)
        ensures
            self.herds@.len() == 0 ==> views_of(r@) == seq![self.prefix@],
            self.herds@.len() > 0 ==> sorted_strs(views_of(r@)) && views_of(r@).to_multiset()
                == herd_names(herds_view(self.herds@)).to_multiset(),
    {
        if self.herds.len() == 0 {
            let mut v: Vec<String> = Vec::new();
            v.push(self.prefix.clone());
            assert(views_of(v@) =~= seq![self.prefix@]);
            return v;
        }
        let mut names: Vec<String> = Vec::new();
        let mut i: usize = 0;
        while i < self.herds.len()
            invariant
                i <= self.herds.len(),
                views_of(names@) == herd_names(herds_view(self.herds@)).take(i as int),
            decreases self.herds.len() - i,
        {
            let n = self.herds[i].0.clone();
            let ghost before = names@;
            names.push(n);
            assert(views_of(names@) =~= views_of(before).push(self.herds@[i as int].0@));
            assert(herd_names(herds_view(self.herds@)).take(i + 1) =~= herd_names(herds_view(self.herds@)).take(i as int).push(self.herds@[i as int].0@));
            i += 1;
        }
        assert(herd_names(herds_view(self.herds@)).take(self.herds.len() as int) == herd_names(
            herds_view(self.herds@),
        ));
        sort_strings(names)
    }

    /// Default type for a new yak in `herd`: the herd override, else the global.
    pub fn default_type_for(&self, herd: &str) -> (r: String)
        ensures
            r@ == default_type_spec(self@, herd@),
    {
        match herd_index(&self.herds, &chars_of(herd)) {
            Some(i) => match &self.herds[i].1.default_type {
                Some(t) => t.clone(),
                None => self.default_type.clone(),
            },
            None => self.default_type.clone(),
        }
    }

    /// Default priority for a new yak in `herd`: the herd override, else the
    /// global.
    pub fn default_priority_for(&self, herd: &str) -> (r: u8)
        ensures
            r == default_priority_spec(self@, herd@),
    {
        match herd_index(&self.herds, &chars_of(herd)) {
            Some(i) => match self.herds[i].1.default_priority {
                Some(p) => p,
                None => self.default_priority,
            },
            None => self.default_priority,
        }
    }

    fn verify_for(&self, herd: &Option<Vec<char>>, k: &[char]) -> (r: Option<String>)
        ensures
            crate::model::ostr(r) == verify_get(
                self@,
                match herd {
                    Some(h) => Some(h@),
                    None => None,
                },
                k@,
            ),
    {
        let from_herd = match herd {
            Some(h) => match herd_index(&self.herds, h) {
                Some(i) => kv_get(&self.herds[i].1.verify, k),
                None => None,
            },
            None => None,
        };
        match from_herd {
            Some(v) => Some(v),
            None => kv_get(&self.verify, k),
        }
    }

    /// Resolve a default verify command for a yak's labels, cascading each
    /// lookup key herd -> global: the first of `labels` with an entry (label
    /// order), else the `default` entry, else none.
    pub fn resolve_verify(&self, labels: &Vec<String>, herd: Option<&str>) -> (r: Option<String>)
        ensures
            crate::model::ostr(r) == resolve_verify_spec(
                self@,
                strs(labels@),
                match herd {
                    Some(h) => Some(h@),
                    None => None,
                },
            ),
    {
        let h: Option<Vec<char>> = match herd {
            Some(s) => Some(chars_of(s)),
            None => None,
        };
        let ghost hv = match herd {
            Some(s) => Some(s@),
            None => None::<Seq<char>>,
        };
        let mut i: usize = 0;
        assert(strs(labels@).skip(0) == strs(labels@));
        while i < labels.len()
            invariant
                i <= labels.len(),
                hv == match h {
                    Some(x) => Some(x@),
                    None => None::<Seq<char>>,
                },
                hv == match herd {
                    Some(x) => Some(x@),
                    None => None::<Seq<char>>,
                },
                resolve_verify_spec(self@, strs(labels@), hv) == resolve_verify_spec(
                    self@,
                    strs(labels@).skip(i as int),
                    hv,
                ),
            decreases labels.len() - i,
        {
            let ghost rest = strs(labels@).skip(i as int);
            assert(rest[0] == labels@[i as int]@);
            assert(rest.drop_first() == strs(labels@).skip(i + 1));
            let lc = chars_of(labels[i].as_str());
            match self.verify_for(&h, &lc) {
                Some(v) => {
                    assert(resolve_verify_spec(self@, rest, hv) == Some(v@));
                    return Some(v);
                },
                None => {},
            }
            i += 1;
        }
        let d = chars_of("default");
        self.verify_for(&h, &d)
    }
}


// ---------------------------------------------------------------------------
// reading
// ---------------------------------------------------------------------------

/// Which block the reader is inside.
#[derive(PartialEq, Eq, Clone, Copy, Structural)]
pub enum Section {
    Top,
    GlobalVerify,
    Herds,
}

pub struct ReadState {
    pub c: ConfigView,
    pub sec: Section,
    pub cur: Option<Seq<char>>,
    pub herd_verify: bool,
}

pub open spec fn empty_herd() -> HerdView {
    HerdView { default_type: None, default_priority: None, verify: seq![] }
}

/// The built-in defaults: herd `yak`, type `task`, priority 3, vim keys.
pub open spec fn default_config() -> ConfigView {
    ConfigView {
        prefix: "yak"@,
        default_type: "task"@,
        default_priority: 3,
        vim_mode: true,
        verify: seq![],
        herds: seq![],
    }
}

/// Declare herd `k` (with no overrides) unless it already is.
pub open spec fn herd_touch(hs: Seq<(Seq<char>, HerdView)>, k: Seq<char>) -> Seq<(Seq<char>, HerdView)> {
    if herd_lookup(hs, k) is Some {
        hs
    } else {
        hs.push((k, empty_herd()))
    }
}

/// Replace the entry of herd `k`.
pub open spec fn herd_set(hs: Seq<(Seq<char>, HerdView)>, k: Seq<char>, v: HerdView) -> Seq<(Seq<char>, HerdView)>
    decreases hs.len(),
{
    if hs.len() == 0 {
        hs
    } else if hs.last().0 == k {
        hs.drop_last().push((k, v))
    } else {
        herd_set(hs.drop_last(), k, v).push(hs.last())
    }
}

/// The number of leading spaces and tabs.
pub open spec fn indent_of(line: Seq<char>) -> nat
    decreases line.len(),
{
    if line.len() > 0 && (line[0] == ' ' || line[0] == '\t') {
        1 + indent_of(line.drop_first())
    } else {
        0
    }
}

/// A line inside an open `herds:` block.
pub open spec fn herds_line(st: ReadState, key: Seq<char>, val: Seq<char>, ind: nat) -> ReadState {
    if ind <= 2 {
        ReadState {
            c: ConfigView { herds: herd_touch(st.c.herds, key), ..st.c },
            cur: Some(key),
            herd_verify: false,
            ..st
        }
    } else {
        match st.cur {
            Some(h) => {
                let hs = herd_touch(st.c.herds, h);
                let hc = herd_lookup(hs, h)->0;
                if st.herd_verify && ind >= 6 {
                    if val.len() > 0 {
                        ReadState {
                            c: ConfigView {
                                herds: herd_set(hs, h, HerdView { verify: hc.verify.push((key, val)), ..hc }),
                                ..st.c
                            },
                            ..st
                        }
                    } else {
                        ReadState { c: ConfigView { herds: hs, ..st.c }, ..st }
                    }
                } else if key == "default_type"@ && val.len() > 0 {
                    ReadState {
                        c: ConfigView {
                            herds: herd_set(hs, h, HerdView { default_type: Some(val), ..hc }),
                            ..st.c
                        },
                        herd_verify: false,
                        ..st
                    }
                } else if key == "default_priority"@ {
                    ReadState {
                        c: ConfigView {
                            herds: match parse_u8_spec(val) {
                                Some(n) => herd_set(hs, h, HerdView { default_priority: Some(n), ..hc }),
                                None => hs,
                            },
                            ..st.c
                        },
                        herd_verify: false,
                        ..st
                    }
                } else if key == "verify"@ && val.len() == 0 {
                    ReadState { c: ConfigView { herds: hs, ..st.c }, herd_verify: true, ..st }
                } else {
                    ReadState { c: ConfigView { herds: hs, ..st.c }, herd_verify: false, ..st }
                }
            },
            None => st,
        }
    }
}

/// A top-level `key: value` line (it closes any open block).
pub open spec fn top_line(st: ReadState, key: Seq<char>, val: Seq<char>) -> ReadState {
    let st = ReadState { sec: Section::Top, herd_verify: false, cur: None, ..st };
    if (key == "herd"@ || key == "prefix"@) && val.len() > 0 {
        ReadState { c: ConfigView { prefix: val, ..st.c }, ..st }
    } else if key == "default_type"@ && val.len() > 0 {
        ReadState { c: ConfigView { default_type: val, ..st.c }, ..st }
    } else if key == "default_priority"@ {
        match parse_u8_spec(val) {
            Some(n) => ReadState { c: ConfigView { default_priority: n, ..st.c }, ..st },
            None => st,
        }
    } else if key == "vim_mode"@ {
        ReadState {
            c: ConfigView {
                vim_mode: val == "true"@ || val == "True"@ || val == "yes"@ || val == "1"@,
                ..st.c
            },
            ..st
        }
    } else if key == "verify"@ && val.len() == 0 {
        ReadState { sec: Section::GlobalVerify, ..st }
    } else if key == "herds"@ && val.len() == 0 {
        ReadState { sec: Section::Herds, ..st }
    } else {
        st
    }
}

/// One config line's effect on the reader. Blank and `#` comment lines are
/// skipped anywhere; a line without `:` closes any open block.
pub open spec fn config_step(st: ReadState, line: Seq<char>) -> ReadState {
    let bare = trim_seq(line);
    if bare.len() == 0 || bare[0] == '#' {
        st
    } else {
        match first_from(line, seq![':'], 0) {
            None => ReadState { sec: Section::Top, herd_verify: false, cur: None, ..st },
            Some(c) => {
                let key = trim_seq(line.take(c));
                let val = unquote_spec(trim_seq(line.skip(c + 1)));
                let ind = indent_of(line);
                if st.sec == Section::GlobalVerify && ind > 0 {
                    if val.len() > 0 {
                        ReadState { c: ConfigView { verify: st.c.verify.push((key, val)), ..st.c }, ..st }
                    } else {
                        st
                    }
                } else if st.sec == Section::Herds && ind > 0 {
                    herds_line(st, key, val, ind)
                } else {
                    top_line(st, key, val)
                }
            },
        }
    }
}

pub open spec fn config_fold(ls: Seq<Seq<char>>) -> ReadState
    decreases ls.len(),
{
    if ls.len() == 0 {
        ReadState { c: default_config(), sec: Section::Top, cur: None, herd_verify: false }
    } else {
        config_step(config_fold(ls.drop_last()), ls.last())
    }
}

/// The configuration a `config.yaml` text holds.
pub open spec fn parse_config_spec(text: Seq<char>) -> ConfigView {
    config_fold(lines_seq(text)).c
}

proof fn lemma_herd_set_at(hs: Seq<(Seq<char>, HerdView)>, k: Seq<char>, v: HerdView, i: int)
    requires
        0 <= i < hs.len(),
        hs[i].0 == k,
        forall|j: int| i < j < hs.len() ==> hs[j].0 != k,
    ensures
        herd_set(hs, k, v) == hs.update(i, (k, v)),
    decreases hs.len(),
{
    if i == hs.len() - 1 {
        assert(hs.drop_last().push((k, v)) =~= hs.update(i, (k, v)));
    } else {
        lemma_herd_set_at(hs.drop_last(), k, v, i);
        assert(herd_set(hs.drop_last(), k, v).push(hs.last()) =~= hs.update(i, (k, v)));
    }
}

proof fn lemma_herd_lookup_last(hs: Seq<(Seq<char>, HerdView)>, k: Seq<char>, i: int)
    requires
        0 <= i < hs.len(),
        hs[i].0 == k,
        forall|j: int| i < j < hs.len() ==> hs[j].0 != k,
    ensures
        herd_lookup(hs, k) == Some(hs[i].1),
    decreases hs.len(),
{
    if i < hs.len() - 1 {
        lemma_herd_lookup_last(hs.drop_last(), k, i);
    }
}

proof fn lemma_herd_lookup_none(hs: Seq<(Seq<char>, HerdView)>, k: Seq<char>)
    requires
        forall|j: int| 0 <= j < hs.len() ==> hs[j].0 != k,
    ensures
        herd_lookup(hs, k) is None,
    decreases hs.len(),
{
    if hs.len() > 0 {
        lemma_herd_lookup_none(hs.drop_last(), k);
    }
}

/// The index of the last entry for herd `k`, adding one when there is none.
fn touch_herd(hs: &mut Vec<(String, HerdConfig)>, k: &String) -> (i: usize)
    ensures
        herds_view(final(hs)@) == herd_touch(herds_view(old(hs)@), k@),
        i < final(hs).len(),
        final(hs)@[i as int].0@ == k@,
        forall|j: int| i < j < final(hs).len() ==> final(hs)@[j].0@ != k@,
{
    let kc = chars_of(k.as_str());
    let mut j = hs.len();
    while j > 0
        invariant
            j <= hs.len(),
            kc@ == k@,
            forall|m: int| j <= m < hs.len() ==> hs@[m].0@ != k@,
        decreases j,
    {
        if eq(&chars_of(hs[j - 1].0.as_str()), &kc) {
            proof {
                assert(herds_view(hs@)[j - 1].0 == k@);
                lemma_herd_lookup_last(herds_view(hs@), k@, j - 1);
            }
            return j - 1;
        }
        j -= 1;
    }
    proof {
        lemma_herd_lookup_none(herds_view(hs@), k@);
    }
    let fresh = HerdConfig { default_type: None, default_priority: None, verify: Vec::new() };
    assert(kv_view(fresh.verify@) =~= seq![]);
    assert(herd_view(fresh) == empty_herd());
    let kk = k.clone();
    hs.push((kk, fresh));
    proof {
        assert(herds_view(hs@) =~= herds_view(old(hs)@).push((k@, empty_herd())));
    }
    hs.len() - 1
}

fn clone_herd(h: &HerdConfig) -> (r: HerdConfig)
    ensures
        herd_view(r) == herd_view(*h),
{
    HerdConfig {
        default_type: crate::model::copy_opt(&h.default_type),
        default_priority: h.default_priority,
        verify: copy_kv(&h.verify),
    }
}

/// Replace entry `i` (the last one for its herd) with `v`.
fn set_herd(hs: &mut Vec<(String, HerdConfig)>, i: usize, v: HerdConfig)
    requires
        i < old(hs).len(),
        forall|j: int| i < j < old(hs).len() ==> old(hs)@[j].0@ != old(hs)@[i as int].0@,
    ensures
        herds_view(final(hs)@) == herd_set(herds_view(old(hs)@), old(hs)@[i as int].0@, herd_view(v)),
{
    let name = hs[i].0.clone();
    let ghost k = name@;
    hs.set(i, (name, v));
    proof {
        lemma_herd_set_at(herds_view(old(hs)@), k, herd_view(v), i as int);
        assert(herds_view(hs@) =~= herds_view(old(hs)@).update(i as int, (k, herd_view(v))));
    }
}

fn indent(line: &[char]) -> (n: usize)
    ensures
        n == indent_of(line@),
{
    let mut i: usize = 0;
    assert(line@.skip(0) == line@);
    while i < line.len() && (line[i] == ' ' || line[i] == '\t')
        invariant
            i <= line.len(),
            indent_of(line@) == i + indent_of(line@.skip(i as int)),
        decreases line.len() - i,
    {
        assert(line@.skip(i as int).drop_first() == line@.skip(i + 1));
        i += 1;
    }
    i
}

fn text_is(s: &[char], lit: &str) -> (r: bool)
    ensures
        r == (s@ == lit@),
{
    eq_str(s, lit)
}

/// Read a `config.yaml` text: top-level scalars, a nested `verify:` map, and
/// a `herds:` map of per-herd blocks (each with its own scalars and
/// `verify:`). Canonical nesting is 2 spaces per level. Missing keys keep the
/// built-in defaults (herd `yak`, type `task`, priority 3, vim keys).
#[verifier::rlimit(60)]
pub fn parse_config(text: &str) -> (c: Config)
    ensures
        c@ == parse_config_spec(text@),
{
    let ls = lines(&chars_of(text));
    let ghost lv = ls@.map_values(|p: Vec<char>| p@);
    let mut c = Config {
        prefix: string_of(&chars_of("yak")),
        default_type: string_of(&chars_of("task")),
        default_priority: 3,
        vim_mode: true,
        verify: Vec::new(),
        herds: Vec::new(),
    };
    let mut sec = Section::Top;
    let mut cur: Option<String> = None;
    let mut herd_verify = false;
    let mut i: usize = 0;
    proof {
        assert(kv_view(c.verify@) =~= Seq::<(Seq<char>, Seq<char>)>::empty());
        assert(herds_view(c.herds@) =~= Seq::<(Seq<char>, HerdView)>::empty());
        assert(lv.take(0) =~= Seq::<Seq<char>>::empty());
    }
    while i < ls.len()
        invariant
            i <= ls.len(),
            lv == ls@.map_values(|p: Vec<char>| p@),
            ({
                let st = config_fold(lv.take(i as int));
                &&& st.c == c@
                &&& st.sec == sec
                &&& st.cur == crate::model::ostr(cur)
                &&& st.herd_verify == herd_verify
            }),
        decreases ls.len() - i,
    {
        proof {
            assert(lv.take(i + 1).drop_last() == lv.take(i as int));
            assert(lv.take(i + 1).last() == lv[i as int]);
        }
        let line = &ls[i];
        let bare = trim(line);
        if bare.len() == 0 || bare[0] == '#' {
            i += 1;
            continue;
        }
        let mut colon: Vec<char> = Vec::new();
        colon.push(':');
        assert(colon@ =~= seq![':']);
        let found = find(line, &colon);
        proof {
            lemma_first_from(line@, colon@, 0);
        }
        match found {
            None => {
                sec = Section::Top;
                herd_verify = false;
                cur = None;
            },
            Some(cpos) => {
                assert(occurs_at(line@, colon@, cpos as int));
                assert(colon@.len() == 1);
                assert(cpos < line.len());
                let key = trim(&slice(line, 0, cpos));
                let val = unquote(&trim(&slice(line, cpos + 1, line.len())));
                assert(line@.take(cpos as int) == line@.subrange(0, cpos as int));
                assert(line@.skip(cpos + 1) == line@.subrange(cpos + 1, line@.len() as int));
                let ind = indent(line);
                if sec == Section::GlobalVerify && ind > 0 {
                    if val.len() > 0 {
                        let ghost before = c.verify@;
                        c.verify.push((string_of(&key), string_of(&val)));
                        assert(kv_view(c.verify@) =~= kv_view(before).push((key@, val@)));
                    }
                } else if sec == Section::Herds && ind > 0 {
                    if ind <= 2 {
                        herd_verify = false;
                        let ks = string_of(&key);
                        touch_herd(&mut c.herds, &ks);
                        cur = Some(ks);
                    } else {
                        match &cur {
                            Some(h) => {
                                let idx = touch_herd(&mut c.herds, h);
                                let ghost hs = herds_view(c.herds@);
                                proof {
                                    assert(hs[idx as int].0 == h@);
                                    assert forall|j: int| idx < j < hs.len() implies hs[j].0 != h@ by {
                                        assert(hs[j].0 == c.herds@[j].0@);
                                    }
                                    lemma_herd_lookup_last(hs, h@, idx as int);
                                }
                                let old_hc = clone_herd(&c.herds[idx].1);
                                if herd_verify && ind >= 6 {
                                    if val.len() > 0 {
                                        let mut nv = copy_kv(&old_hc.verify);
                                        let ghost before = nv@;
                                        nv.push((string_of(&key), string_of(&val)));
                                        assert(kv_view(nv@) =~= kv_view(before).push((key@, val@)));
                                        let nh = HerdConfig {
                                            default_type: old_hc.default_type,
                                            default_priority: old_hc.default_priority,
                                            verify: nv,
                                        };
                                        set_herd(&mut c.herds, idx, nh);
                                    }
                                } else if text_is(&key, "default_type") && val.len() > 0 {
                                    let nh = HerdConfig {
                                        default_type: Some(string_of(&val)),
                                        default_priority: old_hc.default_priority,
                                        verify: old_hc.verify,
                                    };
                                    set_herd(&mut c.herds, idx, nh);
                                    herd_verify = false;
                                } else if text_is(&key, "default_priority") {
                                    match parse_u8(&val) {
                                        Some(n) => {
                                            let nh = HerdConfig {
                                                default_type: old_hc.default_type,
                                                default_priority: Some(n),
                                                verify: old_hc.verify,
                                            };
                                            set_herd(&mut c.herds, idx, nh);
                                        },
                                        None => {},
                                    }
                                    herd_verify = false;
                                } else if text_is(&key, "verify") && val.len() == 0 {
                                    herd_verify = true;
                                } else {
                                    herd_verify = false;
                                }
                            },
                            None => {},
                        }
                    }
                } else {
                    sec = Section::Top;
                    herd_verify = false;
                    cur = None;
                    if (text_is(&key, "herd") || text_is(&key, "prefix")) && val.len() > 0 {
                        c.prefix = string_of(&val);
                    } else if text_is(&key, "default_type") && val.len() > 0 {
                        c.default_type = string_of(&val);
                    } else if text_is(&key, "default_priority") {
                        match parse_u8(&val) {
                            Some(n) => {
                                c.default_priority = n;
                            },
                            None => {},
                        }
                    } else if text_is(&key, "vim_mode") {
                        c.vim_mode = text_is(&val, "true") || text_is(&val, "True") || text_is(
                            &val,
                            "yes",
                        ) || text_is(&val, "1");
                    } else if text_is(&key, "verify") && val.len() == 0 {
                        sec = Section::GlobalVerify;
                    } else if text_is(&key, "herds") && val.len() == 0 {
                        sec = Section::Herds;
                    }
                }
            },
        }
        i += 1;
    }
    assert(lv.take(ls.len() as int) == lv);
    c
}

// ---------------------------------------------------------------------------
// text edits
// ---------------------------------------------------------------------------

/// A `herd:` (or legacy `prefix:`) line.
pub open spec fn is_herd_line(l: Seq<char>) -> bool {
    match first_from(l, seq![':'], 0) {
        Some(c) => trim_seq(l.take(c)) == "herd"@ || trim_seq(l.take(c)) == "prefix"@,
        None => false,
    }
}

/// The text of `config.yaml` with every default-herd line rewritten to
/// `herd: <new>` (a `herd:` line appended when there is none), other lines
/// untouched, ending in a newline.
pub open spec fn with_prefix_spec(text: Seq<char>, new: Seq<char>) -> Seq<char> {
    let ls = lines_seq(text);
    let line = "herd: "@ + new;
    let out = ls.map_values(|l: Seq<char>| if is_herd_line(l) { line } else { l });
    let out = if exists|i: int| 0 <= i < ls.len() && is_herd_line(#[trigger] ls[i]) {
        out
    } else {
        out.push(line)
    };
    join_seq(out, seq!['\n']) + seq!['\n']
}

fn herd_line(l: &[char]) -> (b: bool)
    ensures
        b == is_herd_line(l@),
{
    let mut colon: Vec<char> = Vec::new();
    colon.push(':');
    assert(colon@ =~= seq![':']);
    let found = find(l, &colon);
    proof {
        lemma_first_from(l@, colon@, 0);
        reveal_strlit("herd");
        reveal_strlit("prefix");
    }
    match found {
        Some(c) => {
            assert(occurs_at(l@, colon@, c as int));
            let k = trim(&slice(l, 0, c));
            assert(l@.take(c as int) == l@.subrange(0, c as int));
            eq_str(&k, "herd") || eq_str(&k, "prefix")
        },
        None => false,
    }
}

/// Rewrite the default-herd line of a `config.yaml` text to `new`, leaving
/// every other line untouched: a legacy `prefix:` line becomes `herd:`, and
/// a `herd:` line is appended if none exists.
pub fn set_config_prefix(existing: &str, new: &str) -> (r: String)
    ensures
        r@ == with_prefix_spec(existing@, new@),
{
    let ls = lines(&chars_of(existing));
    let ghost lv = lines_seq(existing@);
    let mut line = chars_of("herd: ");
    push_str(&mut line, new);
    let ghost f = |l: Seq<char>| if is_herd_line(l) { line@ } else { l };
    let mut out: Vec<Vec<char>> = Vec::new();
    let mut replaced = false;
    let mut i: usize = 0;
    while i < ls.len()
        invariant
            i <= ls.len(),
            ls@.map_values(|p: Vec<char>| p@) == lv,
            f == (|l: Seq<char>| if is_herd_line(l) { line@ } else { l }),
            out@.map_values(|p: Vec<char>| p@) == lv.take(i as int).map_values(f),
            replaced == exists|j: int| 0 <= j < i && is_herd_line(#[trigger] lv[j]),
        decreases ls.len() - i,
    {
        assert(lv[i as int] == ls@[i as int]@);
        let ghost before = out@;
        if herd_line(&ls[i]) {
            out.push(copy_chars(&line));
            replaced = true;
        } else {
            out.push(copy_chars(&ls[i]));
        }
        proof {
            assert(out@.map_values(|p: Vec<char>| p@) =~= before.map_values(|p: Vec<char>| p@).push(f(lv[i as int])));
            assert(lv.take(i + 1) == lv.take(i as int).push(lv[i as int]));
            assert(lv.take(i + 1).map_values(f) =~= lv.take(i as int).map_values(f).push(f(lv[i as int])));
        }
        i += 1;
    }
    assert(lv.take(ls.len() as int) == lv);
    if !replaced {
        let ghost before = out@;
        out.push(copy_chars(&line));
        assert(out@.map_values(|p: Vec<char>| p@) =~= before.map_values(|p: Vec<char>| p@).push(line@));
    }
    let mut nl: Vec<char> = Vec::new();
    nl.push('\n');
    assert(nl@ =~= seq!['\n']);
    let mut text = join(&out, &nl);
    let ghost joined = text@;
    text.push('\n');
    proof {
        let sline = "herd: "@ + new@;
        assert(line@ == sline);
        let g = |l: Seq<char>| if is_herd_line(l) { sline } else { l };
        assert(lv.map_values(f) =~= lv.map_values(g));
        assert(text@ =~= joined + seq!['\n']);
    }
    string_of(&text)
}

impl Config {
    /// A field-for-field copy.
    pub fn copy(&self) -> (r: Config)
        ensures
            r@ == self@,
    {
        let mut herds: Vec<(String, HerdConfig)> = Vec::new();
        let mut i: usize = 0;
        while i < self.herds.len()
            invariant
                i <= self.herds.len(),
                herds_view(herds@) == herds_view(self.herds@).take(i as int),
            decreases self.herds.len() - i,
        {
            let ghost before = herds@;
            herds.push((self.herds[i].0.clone(), clone_herd(&self.herds[i].1)));
            assert(herds_view(herds@) =~= herds_view(before).push((self.herds@[i as int].0@, herd_view(self.herds@[i as int].1))));
            assert(herds_view(self.herds@).take(i + 1) == herds_view(self.herds@).take(i as int).push((self.herds@[i as int].0@, herd_view(self.herds@[i as int].1))));
            i += 1;
        }
        assert(herds_view(self.herds@).take(self.herds.len() as int) == herds_view(self.herds@));
        Config {
            prefix: self.prefix.clone(),
            default_type: self.default_type.clone(),
            default_priority: self.default_priority,
            vim_mode: self.vim_mode,
            verify: copy_kv(&self.verify),
            herds,
        }
    }
}

} // verus!
