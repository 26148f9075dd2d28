//! Merging another farm into this one: the plan (what is copied, what
//! collides, which herds join) and the config edit that declares the
//! incoming herds. The caller copies the files the plan lists.

use vstd::prelude::*;
use crate::text::{chars_of, string_of, lt, seq_lt, sort_strings, sorted_strs, views_of};
use crate::model::{Status, strs};
use crate::filter::has_string;
use crate::store::config::{parse_config, herd_index};
use crate::store::layout::file_views;
use crate::store::herds::{declare_herds, declared, id_herd, herds_declared};
use crate::store::config::parse_config_spec;
use crate::farm::{Farm, Change, ChangeView, changes_view};

verus! {

/// The outcome of merging another farm into this one.
pub enum MergeOutcome {
    /// The merge is valid, and (unless a dry run) was applied.
    Done(MergePlan),
    /// No farm was found at the given path (or it is this same farm).
    NoSource(String),
    /// Ids present in both farms; nothing was written.
    Collision(Vec<String>),
}

/// The per-yak plan of a merge.
pub struct MergePlan {
    /// Whether the plan was applied (`false` for a dry run).
    pub applied: bool,
    /// The source farm root the yaks come from.
    pub source: String,
    /// Each merged yak as `(id, status)`, by id.
    pub yaks: Vec<(String, Status)>,
    /// Ids whose `artifacts/<id>/` directory is copied too, sorted.
    pub artifacts: Vec<String>,
    /// Incoming herds newly declared in this farm's config, sorted (for a dry
    /// run, those that would be).
    pub herds: Vec<String>,
}

/// Where insertion sort puts `x` into `s`: before the first pair whose id
/// is greater.
pub open spec fn pair_slot(s: Seq<(Seq<char>, Status)>, x: (Seq<char>, Status), k: int) -> int
    decreases s.len() - k,
{
    if k < 0 || k >= s.len() || seq_lt(x.0, s[k].0) {
        k
    } else {
        pair_slot(s, x, k + 1)
    }
}

/// `s` stably sorted by id.
pub open spec fn pairs_by_id(s: Seq<(Seq<char>, Status)>) -> Seq<(Seq<char>, Status)>
    decreases s.len(),
{
    if s.len() == 0 {
        s
    } else {
        let r = pairs_by_id(s.drop_last());
        r.insert(pair_slot(r, s.last(), 0), s.last())
    }
}

/// An incoming id that is also a file of this farm.
pub open spec fn collides(found: Seq<(Seq<char>, Status)>, here: Seq<(Seq<char>, Status)>, id: Seq<char>) -> bool {
    (exists|i: int| 0 <= i < found.len() && #[trigger] found[i].0 == id) && (exists|j: int|
        0 <= j < here.len() && #[trigger] here[j].0 == id)
}

/// A herd of an incoming id that this farm does not declare.
pub open spec fn incoming_herd(found: Seq<(Seq<char>, Status)>, c: crate::store::config::ConfigView, h: Seq<char>) -> bool {
    (exists|i: int| 0 <= i < found.len() && id_herd(#[trigger] found[i].0) == Some(h)) && !declared(c, h)
}

/// Sorted, each once.
pub open spec fn sorted_unique(q: Seq<Seq<char>>) -> bool {
    sorted_strs(q) && q.no_duplicates()
}

fn sort_pairs_by_id(v: &Vec<(String, Status)>) -> (r: Vec<(String, Status)>)
    ensures
        file_views(r@) == pairs_by_id(file_views(v@)),
{
    let ghost s = file_views(v@);
    let mut r: Vec<(String, Status)> = Vec::new();
    let mut i: usize = 0;
    assert(s.take(0) =~= Seq::<(Seq<char>, Status)>::empty());
    assert(file_views(r@) =~= Seq::<(Seq<char>, Status)>::empty());
    while i < v.len()
        invariant
            i <= v.len(),
            s == file_views(v@),
            file_views(r@) == pairs_by_id(s.take(i as int)),
        decreases v.len() - i,
    {
        let x = (v[i].0.clone(), v[i].1);
        let ghost xv = (x.0@, x.1);
        assert(xv == s[i as int]);
        let ghost rv = file_views(r@);
        let xc = chars_of(x.0.as_str());
        let mut k: usize = 0;
        while k < r.len() && !lt(&xc, &chars_of(r[k].0.as_str()))
            invariant
                k <= r.len(),
                rv == file_views(r@),
                xc@ == xv.0,
                pair_slot(rv, xv, 0) == pair_slot(rv, xv, k as int),
            decreases r.len() - k,
        {
            k += 1;
        }
        r.insert(k, x);
        proof {
            let t = s.take(i + 1);
            assert(t.drop_last() =~= s.take(i as int));
            assert(t.last() == xv);
            assert(file_views(r@) =~= rv.insert(k as int, xv));
        }
        i += 1;
    }
    assert(s.take(v.len() as int) =~= s);
    r
}

fn push_unique(v: &mut Vec<String>, s: String)
    requires
        views_of(old(v)@).no_duplicates(),
    ensures
        views_of(final(v)@).no_duplicates(),
        forall|x: Seq<char>| #[trigger] views_of(final(v)@).contains(x) <==> (views_of(old(v)@).contains(x) || x == s@),
{
    let ghost before = views_of(v@);
    if !has_string(v, &s) {
        let ghost sv = s@;
        v.push(s);
        proof {
            assert(views_of(v@) =~= before.push(sv));
            assert(strs(old(v)@) =~= before);
            assert forall|x: Seq<char>| #[trigger] views_of(v@).contains(x) <==> (before.contains(x) || x == sv) by {
                if views_of(v@).contains(x) {
                    let k = choose|k: int| 0 <= k < views_of(v@).len() && views_of(v@)[k] == x;
                    if k < before.len() {
                        assert(before[k] == x);
                    }
                }
                if before.contains(x) {
                    let k = choose|k: int| 0 <= k < before.len() && before[k] == x;
                    assert(views_of(v@)[k] == x);
                }
                if x == sv {
                    assert(views_of(v@)[before.len() as int] == x);
                }
            }
        }
    } else {
        assert(strs(v@) =~= before);
    }
}

proof fn lemma_perm_set(a: Seq<Seq<char>>, b: Seq<Seq<char>>)
    requires
        a.to_multiset() == b.to_multiset(),
        a.no_duplicates(),
    ensures
        b.no_duplicates(),
        forall|x: Seq<char>| a.contains(x) <==> b.contains(x),
{
    a.lemma_multiset_has_no_duplicates();
    b.lemma_multiset_has_no_duplicates_conv();
    a.to_multiset_ensures();
    b.to_multiset_ensures();
    assert forall|x: Seq<char>| a.contains(x) <==> b.contains(x) by {
        assert(a.to_multiset().count(x) == b.to_multiset().count(x));
        assert(a.contains(x) <==> a.to_multiset().count(x) > 0);
        assert(b.contains(x) <==> b.to_multiset().count(x) > 0);
    }
}


fn file_has_id(files: &Vec<(String, Status)>, id: &String) -> (b: bool)
    ensures
        b == exists|j: int| 0 <= j < files@.len() && #[trigger] file_views(files@)[j].0 == id@,
{
    let mut i: usize = 0;
    while i < files.len()
        invariant
            i <= files.len(),
            forall|j: int| 0 <= j < i ==> file_views(files@)[j].0 != id@,
        decreases files.len() - i,
    {
        if crate::text::same(files[i].0.as_str(), id.as_str()) {
            assert(file_views(files@)[i as int].0 == id@);
            return true;
        }
        i += 1;
    }
    false
}

fn herd_of(id: &String) -> (r: Option<String>)
    ensures
        match r {
            Some(h) => id_herd(id@) == Some(h@),
            None => id_herd(id@) is None,
        },
{
    let c = chars_of(id.as_str());
    let dash = vec!['-'];
    assert(dash@ =~= seq!['-']);
    proof {
        crate::text::lemma_first_from(c@, dash@, 0);
    }
    match crate::text::find(&c, &dash) {
        Some(i) => {
            assert(crate::text::occurs_at(c@, dash@, i as int));
            assert(c@.take(i as int) == c@.subrange(0, i as int));
            Some(string_of(&crate::text::slice(&c, 0, i)))
        },
        None => None,
    }
}

impl Farm {
    /// Plan (and, unless `dry_run`, apply the config half of) merging the
    /// farm at `source`, whose task files are `found` as `(id, status)`, the
    /// ids in `with_artifacts` having an artifacts directory. Refused on any
    /// id this farm already has a file for. The caller copies the files and
    /// artifact directories the plan lists; here the incoming herds this
    /// farm does not declare are added to `config.yaml` (an owed write).
    pub fn merge(
        &mut self,
        source: &str,
        found: &Vec<(String, Status)>,
        with_artifacts: &Vec<String>,
        dry_run: bool,
    ) -> (r: MergeOutcome)
        requires
            old(self).wf(),
        ensures
            final(self).wf(),
            final(self).root == old(self).root,
            final(self).schema_warning == old(self).schema_warning,
            final(self).pointer_prefix == old(self).pointer_prefix,
            final(self).tasks@ == old(self).tasks@,
            final(self).files@ == old(self).files@,
            ({
                let fv = file_views(found@);
                let here = file_views(old(self).files@);
                match r {
                    MergeOutcome::Collision(ids) => {
                        &&& sorted_unique(views_of(ids@))
                        &&& views_of(ids@).len() > 0
                        &&& forall|x: Seq<char>| #[trigger] views_of(ids@).contains(x) <==> collides(fv, here, x)
                        &&& final(self).changes@ == old(self).changes@
                        &&& final(self).config == old(self).config
                        &&& final(self).config_text == old(self).config_text
                    },
                    MergeOutcome::Done(p) => {
                        &&& forall|x: Seq<char>| !collides(fv, here, x)
                        &&& p.applied == !dry_run
                        &&& p.source@ == source@
                        &&& file_views(p.yaks@) == pairs_by_id(fv)
                        &&& sorted_strs(views_of(p.artifacts@))
                        &&& views_of(p.artifacts@).to_multiset() == fv.filter(
                            |e: (Seq<char>, Status)| strs(with_artifacts@).contains(e.0),
                        ).map_values(|e: (Seq<char>, Status)| e.0).to_multiset()
                        &&& exists|inc: Seq<Seq<char>>| {
                            &&& #[trigger] sorted_unique(inc)
                            &&& forall|h: Seq<char>| #[trigger] inc.contains(h) <==> incoming_herd(fv, old(self).config@, h)
                            &&& if dry_run {
                                &&& views_of(p.herds@) == inc
                                &&& final(self).changes@ == old(self).changes@
                                &&& final(self).config == old(self).config
                                &&& final(self).config_text == old(self).config_text
                            } else {
                                &&& herds_declared(
                                    old(self).config_text@,
                                    inc,
                                    here.map_values(|e: (Seq<char>, Status)| e.0) + fv.map_values(
                                        |e: (Seq<char>, Status)| e.0,
                                    ),
                                    views_of(p.herds@),
                                    final(self).config_text@,
                                )
                                &&& views_of(p.herds@).len() > 0 ==> final(self).config@ == parse_config_spec(
                                    final(self).config_text@,
                                )
                                &&& views_of(p.herds@).len() == 0 ==> final(self).config == old(self).config
                                &&& views_of(p.herds@).len() > 0 ==> changes_view(final(self).changes@)
                                    == changes_view(old(self).changes@).push(
                                    ChangeView::Config(final(self).config_text@),
                                )
                                &&& views_of(p.herds@).len() == 0 ==> final(self).changes@ == old(self).changes@
                            }
                        }
                    },
                    MergeOutcome::NoSource(_) => false,
                }
            }),
    {
        let ghost fv = file_views(found@);
        let ghost here = file_views(self.files@);
        // ids present in both farms
        let mut coll: Vec<String> = Vec::new();
        let mut i: usize = 0;
        while i < found.len()
            invariant
                i <= found.len(),
                fv == file_views(found@),
                here == file_views(self.files@),
                views_of(coll@).no_duplicates(),
                forall|x: Seq<char>|
                    #[trigger] views_of(coll@).contains(x) <==> ((exists|k: int| 0 <= k < i && #[trigger] fv[k].0 == x)
                        && (exists|j: int| 0 <= j < here.len() && #[trigger] here[j].0 == x)),
            decreases found.len() - i,
        {
            let ghost prev = views_of(coll@);
            let id = &found[i].0;
            let hit = file_has_id(&self.files, id);
            if hit {
                push_unique(&mut coll, id.clone());
            }
            proof {
                assert(fv[i as int].0 == id@);
                assert forall|x: Seq<char>|
                    #[trigger] views_of(coll@).contains(x) <==> ((exists|k: int| 0 <= k < i + 1 && #[trigger] fv[k].0
                        == x) && (exists|j: int| 0 <= j < here.len() && #[trigger] here[j].0 == x)) by {
                    if exists|k: int| 0 <= k < i + 1 && #[trigger] fv[k].0 == x {
                        let k = choose|k: int| 0 <= k < i + 1 && #[trigger] fv[k].0 == x;
                        if k < i {
                            assert(exists|k2: int| 0 <= k2 < i && #[trigger] fv[k2].0 == x);
                        }
                    }
                    assert(prev.contains(x) <==> ((exists|k: int| 0 <= k < i && #[trigger] fv[k].0 == x) && (exists|j: int|
                        0 <= j < here.len() && #[trigger] here[j].0 == x)));
                }
            }
            i += 1;
        }
        if coll.len() > 0 {
            let ghost unsorted = views_of(coll@);
            let sorted = sort_strings(coll);
            proof {
                lemma_perm_set(unsorted, views_of(sorted@));
                assert forall|x: Seq<char>| #[trigger] views_of(sorted@).contains(x) <==> collides(fv, here, x) by {
                    assert(unsorted.contains(x) <==> views_of(sorted@).contains(x));
                }
                assert(views_of(sorted@).len() > 0) by {
                    assert(unsorted.contains(unsorted[0]));
                    assert(sorted@.len() == unsorted.len()) by {
                        unsorted.to_multiset_ensures();
                        views_of(sorted@).to_multiset_ensures();
                    }
                }
            }
            return MergeOutcome::Collision(sorted);
        }
        proof {
            assert forall|x: Seq<char>| !collides(fv, here, x) by {
                if collides(fv, here, x) {
                    let k = choose|k: int| 0 <= k < fv.len() && #[trigger] fv[k].0 == x;
                    assert(views_of(coll@).contains(x));
                }
            }
        }
        let yaks = sort_pairs_by_id(found);
        // artifacts and incoming herds, over the found files
        let ghost ap = |e: (Seq<char>, Status)| strs(with_artifacts@).contains(e.0);
        let ghost idf = |e: (Seq<char>, Status)| e.0;
        let mut arts: Vec<String> = Vec::new();
        let mut inc: Vec<String> = Vec::new();
        let mut i: usize = 0;
        assert(fv.take(0).filter(ap).map_values(idf) =~= Seq::<Seq<char>>::empty());
        while i < found.len()
            invariant
                i <= found.len(),
                fv == file_views(found@),
                ap == (|e: (Seq<char>, Status)| strs(with_artifacts@).contains(e.0)),
                idf == (|e: (Seq<char>, Status)| e.0),
                views_of(arts@) == fv.take(i as int).filter(ap).map_values(idf),
                views_of(inc@).no_duplicates(),
                forall|h: Seq<char>|
                    #[trigger] views_of(inc@).contains(h) <==> ((exists|k: int| 0 <= k < i && id_herd(#[trigger] fv[k].0)
                        == Some(h)) && !declared(self.config@, h)),
            decreases found.len() - i,
        {
            let id = &found[i].0;
            proof {
                assert(fv[i as int].0 == id@);
                assert(fv.take(i + 1) =~= fv.take(i as int).push(fv[i as int]));
                fv.take(i as int).lemma_filter_push(fv[i as int], ap);
            }
            if has_string(with_artifacts, id) {
                let ghost before = views_of(arts@);
                arts.push(id.clone());
                assert(views_of(arts@) =~= before.push(id@));
                assert(fv.take(i + 1).filter(ap).map_values(idf) =~= fv.take(i as int).filter(ap).map_values(idf).push(id@));
            } else {
                assert(fv.take(i + 1).filter(ap) == fv.take(i as int).filter(ap));
            }
            let ghost prev = views_of(inc@);
            let h = herd_of(id);
            match h {
                Some(hh) => {
                    if herd_index(&self.config.herds, &chars_of(hh.as_str())).is_none() {
                        push_unique(&mut inc, hh);
                    }
                },
                None => {},
            }
            proof {
                assert forall|x: Seq<char>|
                    #[trigger] views_of(inc@).contains(x) <==> ((exists|k: int| 0 <= k < i + 1 && id_herd(#[trigger] fv[k].0)
                        == Some(x)) && !declared(self.config@, x)) by {
                    if exists|k: int| 0 <= k < i + 1 && id_herd(#[trigger] fv[k].0) == Some(x) {
                        let k = choose|k: int| 0 <= k < i + 1 && id_herd(#[trigger] fv[k].0) == Some(x);
                        if k < i {
                            assert(exists|k2: int| 0 <= k2 < i && id_herd(#[trigger] fv[k2].0) == Some(x));
                        }
                    }
                    assert(prev.contains(x) <==> ((exists|k: int| 0 <= k < i && id_herd(#[trigger] fv[k].0) == Some(x))
                        && !declared(self.config@, x)));
                }
            }
            i += 1;
        }
        assert(fv.take(found.len() as int) =~= fv);
        let ghost unsorted_arts = views_of(arts@);
        let arts = sort_strings(arts);
        let ghost unsorted_inc = views_of(inc@);
        let inc = sort_strings(inc);
        proof {
            lemma_perm_set(unsorted_inc, views_of(inc@));
            assert forall|h: Seq<char>| #[trigger] views_of(inc@).contains(h) <==> incoming_herd(fv, self.config@, h) by {
                assert(unsorted_inc.contains(h) <==> views_of(inc@).contains(h));
            }
            assert(sorted_unique(views_of(inc@)));
        }
        let ghost incv = views_of(inc@);
        let ghost cfg0 = self.config@;
        if dry_run {
            let p = MergePlan {
                applied: false,
                source: crate::text::owned(source),
                yaks,
                artifacts: arts,
                herds: inc,
            };
            return MergeOutcome::Done(p);
        }
        // every id on disk once the files are copied
        let mut disk: Vec<String> = Vec::new();
        let mut j: usize = 0;
        let ghost ids_here = here.map_values(|e: (Seq<char>, Status)| e.0);
        let ghost ids_found = fv.map_values(|e: (Seq<char>, Status)| e.0);
        assert(views_of(disk@) =~= ids_here.take(0));
        while j < self.files.len()
            invariant
                j <= self.files.len(),
                here == file_views(self.files@),
                ids_here == here.map_values(|e: (Seq<char>, Status)| e.0),
                views_of(disk@) == ids_here.take(j as int),
            decreases self.files.len() - j,
        {
            let ghost before = views_of(disk@);
            disk.push(self.files[j].0.clone());
            assert(views_of(disk@) =~= before.push(ids_here[j as int]));
            assert(ids_here.take(j + 1) =~= ids_here.take(j as int).push(ids_here[j as int]));
            j += 1;
        }
        let mut j: usize = 0;
        assert(ids_here.take(self.files.len() as int) =~= ids_here);
        assert(views_of(disk@) =~= ids_here + ids_found.take(0));
        while j < found.len()
            invariant
                j <= found.len(),
                fv == file_views(found@),
                ids_found == fv.map_values(|e: (Seq<char>, Status)| e.0),
                views_of(disk@) == ids_here + ids_found.take(j as int),
            decreases found.len() - j,
        {
            let ghost before = views_of(disk@);
            disk.push(found[j].0.clone());
            assert(views_of(disk@) =~= before.push(ids_found[j as int]));
            assert(ids_found.take(j + 1) =~= ids_found.take(j as int).push(ids_found[j as int]));
            j += 1;
        }
        assert(ids_found.take(found.len() as int) =~= ids_found);
        let (text, added) = declare_herds(self.config_text.as_str(), &inc, &disk);
        if added.len() > 0 {
            self.config = parse_config(text.as_str());
            self.config_text = crate::text::owned(text.as_str());
            self.record(Change::Config(text));
        } else {
            assert(self.config_text@ == old(self).config_text@);
        }
        proof {
            assert(views_of(disk@) == ids_here + ids_found);
        }
        let p = MergePlan { applied: true, source: crate::text::owned(source), yaks, artifacts: arts, herds: added };
        proof {
            assert(sorted_unique(incv));
            assert(forall|h: Seq<char>| #[trigger] incv.contains(h) <==> incoming_herd(fv, old(self).config@, h));
            assert(herds_declared(old(self).config_text@, incv, ids_here + ids_found, views_of(p.herds@), self.config_text@));
        }
        MergeOutcome::Done(p)
    }
}
} // verus!
