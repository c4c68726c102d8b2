//! The per-key update state: every logical dependency entry together
//! with its computed update options, the tier the user is looking at,
//! and whether it is selected for rewriting.

use core::cmp::Ordering;
use vstd::prelude::*;

use crate::assoc::{
    lemma_pairs_to_map_dom, lemma_pairs_to_map_get, lemma_pairs_to_map_update, pairs_to_map,
    pairs_unique,
};
use crate::dependency_resolver::{
    kv_views, DependencyMap, Location, LocationView, VersionWithLocationsView,
};
use crate::model::{Artifact, Group};
use crate::update_options::{
    spec_new_options, views_of, UpdateOptions, UpdateOptionsView, VersionType,
};
use crate::version::{lex_cmp, Version, VersionView};

verus! {

/// One logical dependency with its update state.
#[derive(Debug)]
pub struct Entry {
    pub group: Group,
    pub artifact: Artifact,
    pub version: Version,
    pub locations: Vec<Location>,
    pub update_options: Option<UpdateOptions>,
    pub version_type: VersionType,
    pub is_selected: bool,
}

/// Mathematical model of [`Entry`].
pub struct EntryView {
    pub group: Seq<char>,
    pub artifact: Seq<char>,
    pub version: VersionView,
    pub locations: Seq<LocationView>,
    pub update_options: Option<UpdateOptionsView>,
    pub version_type: VersionType,
    pub is_selected: bool,
}

impl View for Entry {
    type V = EntryView;

    open spec fn view(&self) -> EntryView {
        EntryView {
            group: self.group@,
            artifact: self.artifact@,
            version: self.version@,
            locations: self.locations.deep_view(),
            update_options: self.update_options.deep_view(),
            version_type: self.version_type,
            is_selected: self.is_selected,
        }
    }
}

impl DeepView for Entry {
    type V = EntryView;

    open spec fn deep_view(&self) -> EntryView {
        self.view()
    }
}

impl Clone for Entry {
    fn clone(&self) -> (r: Self)
        ensures
            r@ == self@,
    {
        let locations = self.locations.clone();
        proof {
            assert forall|i: int| 0 <= i < locations@.len() implies locations@[i]
                == self.locations@[i] by {
                assert(vstd::pervasive::cloned::<Location>(self.locations@[i], locations@[i]));
            }
            assert(locations@ =~= self.locations@);
        }
        Entry {
            group: self.group.clone(),
            artifact: self.artifact.clone(),
            version: self.version.clone(),
            locations,
            update_options: match &self.update_options {
                Some(o) => Some(o.clone()),
                None => None,
            },
            version_type: self.version_type,
            is_selected: self.is_selected,
        }
    }
}

/// The candidate a tier holds.
pub open spec fn spec_tier_version(o: UpdateOptionsView, t: VersionType) -> Option<VersionView> {
    match t {
        VersionType::Major => o.major,
        VersionType::Minor => o.minor,
        VersionType::Patch => o.patch,
        VersionType::PreRelease => o.pre_release,
    }
}

pub open spec fn spec_current_update_version(e: EntryView) -> Option<VersionView> {
    match e.update_options {
        None => None,
        Some(o) => spec_tier_version(o, e.version_type),
    }
}

impl Entry {
    /// The candidate of the tier this entry currently shows.
    pub fn current_update_version(&self) -> (r: Option<&Version>)
        ensures
            match r {
                Some(v) => spec_current_update_version(self@) == Some(v@),
                None => spec_current_update_version(self@) is None,
            },
    {
        if let Some(update_options) = &self.update_options {
            match self.version_type {
                VersionType::Major => update_options.major.as_ref(),
                VersionType::Minor => update_options.minor.as_ref(),
                VersionType::Patch => update_options.patch.as_ref(),
                VersionType::PreRelease => update_options.pre_release.as_ref(),
            }
        } else {
            None
        }
    }
}

/// Whether the tier holds a candidate.
pub open spec fn spec_tier_exists(o: UpdateOptionsView, t: VersionType) -> bool {
    spec_tier_version(o, t) is Some
}

/// The tier first shown for freshly computed options: the highest tier
/// that holds a candidate.
pub open spec fn spec_determine_version_type(o: UpdateOptionsView) -> VersionType {
    if o.major is Some {
        VersionType::Major
    } else if o.minor is Some {
        VersionType::Minor
    } else if o.patch is Some {
        VersionType::Patch
    } else {
        VersionType::PreRelease
    }
}

pub open spec fn entry_kv_views(es: Seq<((Group, Artifact), Entry)>) -> Seq<
    ((Seq<char>, Seq<char>), EntryView),
> {
    es.map_values(|e: ((Group, Artifact), Entry)| ((e.0.0@, e.0.1@), e.1@))
}

/// Strict order on keys: by organization text, then artifact text.
pub open spec fn key_lt(a: (Seq<char>, Seq<char>), b: (Seq<char>, Seq<char>)) -> bool {
    lex_cmp(a.0, b.0) == Ordering::Less || (lex_cmp(a.0, b.0) == Ordering::Equal && lex_cmp(
        a.1,
        b.1,
    ) == Ordering::Less)
}

/// All update-state entries of a project, one per key.
pub struct EntryMap {
    entries: Vec<((Group, Artifact), Entry)>,
}

impl View for EntryMap {
    type V = Map<(Seq<char>, Seq<char>), EntryView>;

    closed spec fn view(&self) -> Map<(Seq<char>, Seq<char>), EntryView> {
        pairs_to_map(entry_kv_views(self.entries@))
    }
}

impl EntryMap {
    /// Each key stands in at most one slot of the backing list.
    pub closed spec fn wf(&self) -> bool {
        pairs_unique(entry_kv_views(self.entries@))
    }

    pub fn new() -> (r: EntryMap)
        ensures
            r@ == Map::<(Seq<char>, Seq<char>), EntryView>::empty(),
            r.wf(),
    {
        let r = EntryMap { entries: Vec::new() };
        proof {
            assert(entry_kv_views(r.entries@) =~= Seq::empty());
        }
        r
    }

    /// Store an entry under a key, replacing what the key held.
    pub fn insert(&mut self, group: Group, artifact: Artifact, entry: Entry)
        requires
            old(self).wf(),
        ensures
            final(self).wf(),
            final(self)@ == old(self)@.insert((group@, artifact@), entry@),
    {
        let ghost kv = entry_kv_views(old(self).entries@);
        let ghost k = (group@, artifact@);
        let n = self.entries.len();
        let mut i: usize = 0;
        while i < n
            invariant
                0 <= i <= n == self.entries@.len(),
                self.entries@ == old(self).entries@,
                kv == entry_kv_views(self.entries@),
                pairs_unique(kv),
                k == (group@, artifact@),
                old(self)@ == pairs_to_map(kv),
                forall|j: int| 0 <= j < i ==> (#[trigger] kv[j]).0 != k,
            decreases n - i,
        {
            proof {
                assert(kv[i as int] == ((self.entries@[i as int].0.0@, self.entries@[
                    i as int
                ].0.1@), self.entries@[i as int].1@));
            }
            if self.entries[i].0.0 == group && self.entries[i].0.1 == artifact {
                let slot = &mut self.entries[i];
                slot.1 = entry;
                proof {
                    let kv2 = entry_kv_views(self.entries@);
                    assert forall|j: int| 0 <= j < kv2.len() implies kv2[j] == kv.update(
                        i as int,
                        (k, self.entries@[i as int].1@),
                    )[j] by {
                        assert(kv2[j] == ((self.entries@[j].0.0@, self.entries@[j].0.1@),
                        self.entries@[j].1@));
                        assert(kv[j] == ((old(self).entries@[j].0.0@, old(self).entries@[
                            j
                        ].0.1@), old(self).entries@[j].1@));
                    }
                    assert(kv2 =~= kv.update(i as int, (k, self.entries@[i as int].1@)));
                    lemma_pairs_to_map_update(kv, i as int, self.entries@[i as int].1@);
                    assert forall|a: int, b: int|
                        0 <= a < b < kv2.len() implies (#[trigger] kv2[a]).0 != (
                    #[trigger] kv2[b]).0 by {
                        assert(kv2[a].0 == kv[a].0 && kv2[b].0 == kv[b].0);
                    }
                }
                return ;
            }
            i = i + 1;
        }
        proof {
            lemma_pairs_to_map_dom(kv);
        }
        self.entries.push(((group, artifact), entry));
        proof {
            let kv2 = entry_kv_views(self.entries@);
            assert forall|j: int| 0 <= j < kv2.len() implies kv2[j] == kv.push(
                (k, self.entries@[kv.len() as int].1@),
            )[j] by {
                assert(kv2[j] == ((self.entries@[j].0.0@, self.entries@[j].0.1@), self.entries@[
                    j
                ].1@));
                if j < kv.len() {
                    assert(kv[j] == ((old(self).entries@[j].0.0@, old(self).entries@[j].0.1@),
                    old(self).entries@[j].1@));
                }
            }
            assert(kv2 =~= kv.push((k, self.entries@[kv.len() as int].1@)));
            assert(kv2.drop_last() =~= kv);
            assert forall|a: int, b: int| 0 <= a < b < kv2.len() implies (#[trigger] kv2[a]).0
                != (#[trigger] kv2[b]).0 by {
                if b < kv.len() {
                    assert(kv2[a] == kv[a] && kv2[b] == kv[b]);
                } else {
                    assert(kv2[a] == kv[a] && kv2[b].0 == k);
                }
            }
        }
    }

    /// The entry a key holds, if any.
    pub fn get(&self, group: &Group, artifact: &Artifact) -> (r: Option<&Entry>)
        requires
            self.wf(),
        ensures
            match r {
                Some(e) => self@.dom().contains((group@, artifact@)) && e@ == self@[
                    (group@, artifact@)
                ],
                None => !self@.dom().contains((group@, artifact@)),
            },
    {
        let ghost kv = entry_kv_views(self.entries@);
        proof {
            lemma_pairs_to_map_dom(kv);
        }
        let n = self.entries.len();
        let mut i: usize = 0;
        while i < n
            invariant
                0 <= i <= n == self.entries@.len(),
                kv == entry_kv_views(self.entries@),
                pairs_unique(kv),
                self@ == pairs_to_map(kv),
                forall|j: int| 0 <= j < i ==> (#[trigger] kv[j]).0 != (group@, artifact@),
            decreases n - i,
        {
            proof {
                assert(kv[i as int] == ((self.entries@[i as int].0.0@, self.entries@[
                    i as int
                ].0.1@), self.entries@[i as int].1@));
            }
            if self.entries[i].0.0 == *group && self.entries[i].0.1 == *artifact {
                proof {
                    lemma_pairs_to_map_get(kv, i as int);
                }
                return Some(&self.entries[i].1);
            }
            i = i + 1;
        }
        proof {
            lemma_pairs_to_map_dom(kv);
        }
        None
    }

    /// Take a key's entry out of the map.
    pub fn remove(&mut self, group: &Group, artifact: &Artifact) -> (r: Option<Entry>)
        requires
            old(self).wf(),
        ensures
            final(self).wf(),
            final(self)@ == old(self)@.remove((group@, artifact@)),
            match r {
                Some(e) => old(self)@.dom().contains((group@, artifact@)) && e@ == old(self)@[
                    (group@, artifact@)
                ],
                None => !old(self)@.dom().contains((group@, artifact@)),
            },
    {
        let ghost kv = entry_kv_views(old(self).entries@);
        let ghost k = (group@, artifact@);
        proof {
            lemma_pairs_to_map_dom(kv);
        }
        let n = self.entries.len();
        let mut i: usize = 0;
        while i < n
            invariant
                0 <= i <= n == self.entries@.len(),
                self.entries@ == old(self).entries@,
                kv == entry_kv_views(self.entries@),
                pairs_unique(kv),
                k == (group@, artifact@),
                old(self)@ == pairs_to_map(kv),
                forall|j: int| 0 <= j < i ==> (#[trigger] kv[j]).0 != k,
            decreases n - i,
        {
            proof {
                assert(kv[i as int] == ((self.entries@[i as int].0.0@, self.entries@[
                    i as int
                ].0.1@), self.entries@[i as int].1@));
            }
            if self.entries[i].0.0 == *group && self.entries[i].0.1 == *artifact {
                proof {
                    lemma_pairs_to_map_get(kv, i as int);
                }
                let removed = self.entries.remove(i);
                proof {
                    let kv2 = entry_kv_views(self.entries@);
                    assert forall|j: int| 0 <= j < kv2.len() implies kv2[j] == kv.remove(
                        i as int,
                    )[j] by {
                        assert(kv2[j] == ((self.entries@[j].0.0@, self.entries@[j].0.1@),
                        self.entries@[j].1@));
                        if j < i {
                            assert(kv[j] == ((old(self).entries@[j].0.0@, old(
                                self,
                            ).entries@[j].0.1@), old(self).entries@[j].1@));
                        } else {
                            assert(kv[j + 1] == ((old(self).entries@[j + 1].0.0@, old(
                                self,
                            ).entries@[j + 1].0.1@), old(self).entries@[j + 1].1@));
                        }
                    }
                    assert(kv2 =~= kv.remove(i as int));
                    crate::assoc::lemma_pairs_to_map_remove(kv, i as int);
                }
                return Some(removed.1);
            }
            i = i + 1;
        }
        proof {
            lemma_pairs_to_map_dom(kv);
            assert(old(self)@.remove(k) =~= old(self)@);
        }
        None
    }

    /// Every key held, in no promised order.
    pub fn groups_and_artifacts(&self) -> (r: Vec<(Group, Artifact)>)
        requires
            self.wf(),
        ensures
            forall|i: int|
                0 <= i < r.deep_view().len() ==> self@.dom().contains(
                    #[trigger] r.deep_view()[i],
                ),
            forall|k: (Seq<char>, Seq<char>)| #[trigger]
                self@.dom().contains(k) ==> r.deep_view().contains(k),
    {
        let ghost kv = entry_kv_views(self.entries@);
        proof {
            lemma_pairs_to_map_dom(kv);
        }
        let n = self.entries.len();
        let mut r: Vec<(Group, Artifact)> = Vec::new();
        let mut i: usize = 0;
        while i < n
            invariant
                0 <= i <= n == self.entries@.len(),
                kv == entry_kv_views(self.entries@),
                pairs_unique(kv),
                self@ == pairs_to_map(kv),
                r@.len() == i,
                forall|j: int| 0 <= j < i ==> ((#[trigger] r@[j]).0@, r@[j].1@) == kv[j].0,
            decreases n - i,
        {
            proof {
                assert(kv[i as int] == ((self.entries@[i as int].0.0@, self.entries@[
                    i as int
                ].0.1@), self.entries@[i as int].1@));
            }
            let key = (self.entries[i].0.0.clone(), self.entries[i].0.1.clone());
            r.push(key);
            i = i + 1;
        }
        proof {
            assert forall|j: int| 0 <= j < r.deep_view().len() implies self@.dom().contains(
                #[trigger] r.deep_view()[j],
            ) by {
                assert(r.deep_view()[j] == (r@[j].0@, r@[j].1@));
                lemma_pairs_to_map_get(kv, j);
            }
            assert forall|k: (Seq<char>, Seq<char>)| #[trigger]
                self@.dom().contains(k) implies r.deep_view().contains(k) by {
                let j = choose|j: int| 0 <= j < kv.len() && (#[trigger] kv[j]).0 == k;
                assert(r.deep_view()[j] == (r@[j].0@, r@[j].1@));
                assert(r.deep_view()[j] == k);
            }
        }
        r
    }
}

/// An entry with freshly computed options attached, shown at the highest
/// tier that holds a candidate.
pub open spec fn spec_with_options(e: EntryView, o: UpdateOptionsView) -> EntryView {
    EntryView {
        update_options: Some(o),
        version_type: spec_determine_version_type(o),
        ..e
    }
}

/// What attaching one key's offered versions does to the map: options
/// are computed against the entry's current version, and recorded only
/// when some tier holds a candidate.
pub open spec fn spec_add_versions_step(
    m: Map<(Seq<char>, Seq<char>), EntryView>,
    k: (Seq<char>, Seq<char>),
    versions: Seq<VersionView>,
) -> Map<(Seq<char>, Seq<char>), EntryView> {
    match spec_new_options(m[k].version, versions) {
        Some(o) => m.insert(k, spec_with_options(m[k], o)),
        None => m,
    }
}

pub open spec fn spec_add_versions(
    m: Map<(Seq<char>, Seq<char>), EntryView>,
    vs: Seq<((Seq<char>, Seq<char>), Seq<VersionView>)>,
) -> Map<(Seq<char>, Seq<char>), EntryView>
    decreases vs.len(),
{
    if vs.len() == 0 {
        m
    } else {
        spec_add_versions_step(
            spec_add_versions(m, vs.drop_last()),
            vs.last().0,
            vs.last().1,
        )
    }
}

pub open spec fn versions_map_views(vs: Seq<((Group, Artifact), Vec<Version>)>) -> Seq<
    ((Seq<char>, Seq<char>), Seq<VersionView>),
> {
    vs.map_values(
        |v: ((Group, Artifact), Vec<Version>)| ((v.0.0@, v.0.1@), views_of(v.1@)),
    )
}

/// The entry one logical dependency entry seeds: not yet selected, no
/// options computed, showing the major tier.
pub open spec fn spec_seed_entry(
    k: (Seq<char>, Seq<char>),
    v: VersionWithLocationsView,
) -> EntryView {
    EntryView {
        group: k.0,
        artifact: k.1,
        version: v.version,
        locations: v.locations,
        update_options: None,
        version_type: VersionType::Major,
        is_selected: false,
    }
}

impl EntryMap {
    fn version_type_exists(update_options: &UpdateOptions, version_type: VersionType) -> (r:
        bool)
        ensures
            r == spec_tier_exists(update_options@, version_type),
    {
        match version_type {
            VersionType::Major => update_options.major.is_some(),
            VersionType::Minor => update_options.minor.is_some(),
            VersionType::Patch => update_options.patch.is_some(),
            VersionType::PreRelease => update_options.pre_release.is_some(),
        }
    }

    fn determine_version_type(update_options: &UpdateOptions) -> (r: VersionType)
        ensures
            r == spec_determine_version_type(update_options@),
    {
        if update_options.major.is_some() {
            VersionType::Major
        } else if update_options.minor.is_some() {
            VersionType::Minor
        } else if update_options.patch.is_some() {
            VersionType::Patch
        } else {
            VersionType::PreRelease
        }
    }

    /// Attach each key's offered versions to its entry.  Every key given
    /// must already hold an entry.
    pub fn add_versions(&mut self, versions_map: &Vec<((Group, Artifact), Vec<Version>)>)
        requires
            old(self).wf(),
            forall|i: int|
                0 <= i < versions_map@.len() ==> old(self)@.dom().contains(
                    #[trigger] versions_map_views(versions_map@)[i].0,
                ),
        ensures
            final(self).wf(),
            final(self)@ == spec_add_versions(old(self)@, versions_map_views(versions_map@)),
    {
        let ghost vs = versions_map_views(versions_map@);
        let n = versions_map.len();
        let mut i: usize = 0;
        proof {
            assert(vs.take(0) =~= Seq::<((Seq<char>, Seq<char>), Seq<VersionView>)>::empty());
        }
        while i < n
            invariant
                0 <= i <= n == versions_map@.len(),
                vs == versions_map_views(versions_map@),
                vs.len() == n,
                self.wf(),
                self@ == spec_add_versions(old(self)@, vs.take(i as int)),
                forall|j: int| 0 <= j < n ==> old(self)@.dom().contains((#[trigger] vs[j]).0),
                forall|k: (Seq<char>, Seq<char>)| #[trigger]
                    self@.dom().contains(k) == old(self)@.dom().contains(k),
            decreases n - i,
        {
            proof {
                assert(vs[i as int] == ((versions_map@[i as int].0.0@, versions_map@[
                    i as int
                ].0.1@), views_of(versions_map@[i as int].1@)));
                assert(vs.take(i as int + 1).drop_last() =~= vs.take(i as int));
                assert(vs.take(i as int + 1).last() == vs[i as int]);
            }
            let group = &versions_map[i].0.0;
            let artifact = &versions_map[i].0.1;
            let current = match self.get(group, artifact) {
                Some(entry) => entry.version.clone(),
                None => {
                    proof {
                        assert(false);
                    }
                    unreached()
                },
            };
            match UpdateOptions::new(&current, versions_map[i].1.as_slice()) {
                Some(update_options) => {
                    let version_type = Self::determine_version_type(&update_options);
                    self.set_options(group, artifact, update_options, version_type);
                },
                None => {},
            }
            i = i + 1;
        }
        proof {
            assert(vs.take(n as int) =~= vs);
        }
    }

    /// Record computed options on a held entry.
    fn set_options(
        &mut self,
        group: &Group,
        artifact: &Artifact,
        update_options: UpdateOptions,
        version_type: VersionType,
    )
        requires
            old(self).wf(),
            old(self)@.dom().contains((group@, artifact@)),
        ensures
            final(self).wf(),
            final(self)@ == old(self)@.insert(
                (group@, artifact@),
                EntryView {
                    update_options: Some(update_options@),
                    version_type: version_type,
                    ..old(self)@[(group@, artifact@)]
                },
            ),
    {
        let ghost kv = entry_kv_views(old(self).entries@);
        let ghost k = (group@, artifact@);
        let n = self.entries.len();
        let mut i: usize = 0;
        while i < n
            invariant
                0 <= i <= n == self.entries@.len(),
                self.entries@ == old(self).entries@,
                kv == entry_kv_views(self.entries@),
                pairs_unique(kv),
                k == (group@, artifact@),
                old(self)@ == pairs_to_map(kv),
                old(self)@.dom().contains(k),
                forall|j: int| 0 <= j < i ==> (#[trigger] kv[j]).0 != k,
            decreases n - i,
        {
            proof {
                assert(kv[i as int] == ((self.entries@[i as int].0.0@, self.entries@[
                    i as int
                ].0.1@), self.entries@[i as int].1@));
            }
            if self.entries[i].0.0 == *group && self.entries[i].0.1 == *artifact {
                proof {
                    lemma_pairs_to_map_get(kv, i as int);
                }
                let slot = &mut self.entries[i];
                slot.1.update_options = Some(update_options);
                slot.1.version_type = version_type;
                proof {
                    let kv2 = entry_kv_views(self.entries@);
                    assert forall|j: int| 0 <= j < kv2.len() implies kv2[j] == kv.update(
                        i as int,
                        (k, self.entries@[i as int].1@),
                    )[j] by {
                        assert(kv2[j] == ((self.entries@[j].0.0@, self.entries@[j].0.1@),
                        self.entries@[j].1@));
                        assert(kv[j] == ((old(self).entries@[j].0.0@, old(self).entries@[
                            j
                        ].0.1@), old(self).entries@[j].1@));
                    }
                    assert(kv2 =~= kv.update(i as int, (k, self.entries@[i as int].1@)));
                    lemma_pairs_to_map_update(kv, i as int, self.entries@[i as int].1@);
                    assert forall|a: int, b: int|
                        0 <= a < b < kv2.len() implies (#[trigger] kv2[a]).0 != (
                    #[trigger] kv2[b]).0 by {
                        assert(kv2[a].0 == kv[a].0 && kv2[b].0 == kv[b].0);
                    }
                }
                return ;
            }
            i = i + 1;
        }
        proof {
            lemma_pairs_to_map_dom(kv);
            assert(false);
        }
    }

    /// Seed one entry per logical dependency entry.
    pub fn from_dependency_map(dependencies: &DependencyMap) -> (r: EntryMap)
        requires
            dependencies.wf(),
        ensures
            r.wf(),
            forall|k: (Seq<char>, Seq<char>)| #[trigger]
                r@.dom().contains(k) == dependencies@.dom().contains(k),
            forall|k: (Seq<char>, Seq<char>)| #[trigger]
                r@.dom().contains(k) ==> r@[k] == spec_seed_entry(k, dependencies@[k]),
    {
        let src = dependencies.iter();
        let ghost skv = kv_views(src@);
        proof {
            lemma_pairs_to_map_dom(skv);
        }
        let mut entry_map = EntryMap::new();
        let n = src.len();
        let mut i: usize = 0;
        while i < n
            invariant
                0 <= i <= n == src@.len(),
                skv == kv_views(src@),
                pairs_unique(skv),
                dependencies@ == pairs_to_map(skv),
                entry_map.wf(),
                forall|k: (Seq<char>, Seq<char>)| #[trigger]
                    entry_map@.dom().contains(k) <==> exists|j: int|
                        0 <= j < i && (#[trigger] skv[j]).0 == k,
                forall|j: int|
                    0 <= j < i ==> entry_map@.dom().contains((#[trigger] skv[j]).0)
                        && entry_map@[skv[j].0] == spec_seed_entry(skv[j].0, skv[j].1),
            decreases n - i,
        {
            proof {
                assert(skv[i as int] == ((src@[i as int].0.0@, src@[i as int].0.1@), src@[
                    i as int
                ].1@));
            }
            let group = src[i].0.0.clone();
            let artifact = src[i].0.1.clone();
            let entry = Entry {
                group: src[i].0.0.clone(),
                artifact: src[i].0.1.clone(),
                version: src[i].1.version.clone(),
                locations: src[i].1.locations.clone(),
                update_options: None,
                version_type: VersionType::Major,
                is_selected: false,
            };
            proof {
                assert forall|j: int|
                    0 <= j < entry.locations@.len() implies entry.locations@[j] == src@[
                    i as int
                ].1.locations@[j] by {
                    assert(vstd::pervasive::cloned::<Location>(
                        src@[i as int].1.locations@[j],
                        entry.locations@[j],
                    ));
                }
                assert(entry.locations@ =~= src@[i as int].1.locations@);
                assert(entry@ == spec_seed_entry(skv[i as int].0, skv[i as int].1));
            }
            entry_map.insert(group, artifact, entry);
            i = i + 1;
        }
        proof {
            lemma_pairs_to_map_dom(skv);
            assert forall|k: (Seq<char>, Seq<char>)| #[trigger]
                entry_map@.dom().contains(k) == dependencies@.dom().contains(k) by {
                if dependencies@.dom().contains(k) {
                    let j = choose|j: int| 0 <= j < skv.len() && (#[trigger] skv[j]).0 == k;
                    assert(entry_map@.dom().contains(k));
                }
            }
            assert forall|k: (Seq<char>, Seq<char>)| #[trigger]
                entry_map@.dom().contains(k) implies entry_map@[k] == spec_seed_entry(
                k,
                dependencies@[k],
            ) by {
                let j = choose|j: int| 0 <= j < skv.len() && (#[trigger] skv[j]).0 == k;
                lemma_pairs_to_map_get(skv, j);
            }
        }
        entry_map
    }

    pub(crate) fn deselect(&mut self, group: &Group, artifact: &Artifact)
        requires
            old(self).wf(),
        ensures
            final(self).wf(),
            final(self)@ == if old(self)@.dom().contains((group@, artifact@)) {
                old(self)@.insert(
                    (group@, artifact@),
                    EntryView { is_selected: false, ..old(self)@[(group@, artifact@)] },
                )
            } else {
                old(self)@
            },
    {
        self.set_selected(group, artifact, false);
    }

    pub(crate) fn select(&mut self, group: &Group, artifact: &Artifact)
        requires
            old(self).wf(),
        ensures
            final(self).wf(),
            final(self)@ == if old(self)@.dom().contains((group@, artifact@)) {
                old(self)@.insert(
                    (group@, artifact@),
                    EntryView { is_selected: true, ..old(self)@[(group@, artifact@)] },
                )
            } else {
                old(self)@
            },
    {
        self.set_selected(group, artifact, true);
    }

    fn set_selected(&mut self, group: &Group, artifact: &Artifact, value: bool)
        requires
            old(self).wf(),
        ensures
            final(self).wf(),
            final(self)@ == if old(self)@.dom().contains((group@, artifact@)) {
                old(self)@.insert(
                    (group@, artifact@),
                    EntryView { is_selected: value, ..old(self)@[(group@, artifact@)] },
                )
            } else {
                old(self)@
            },
    {
        let ghost kv = entry_kv_views(old(self).entries@);
        let ghost k = (group@, artifact@);
        proof {
            lemma_pairs_to_map_dom(kv);
        }
        let n = self.entries.len();
        let mut i: usize = 0;
        while i < n
            invariant
                0 <= i <= n == self.entries@.len(),
                self.entries@ == old(self).entries@,
                kv == entry_kv_views(self.entries@),
                pairs_unique(kv),
                k == (group@, artifact@),
                old(self)@ == pairs_to_map(kv),
                forall|j: int| 0 <= j < i ==> (#[trigger] kv[j]).0 != k,
            decreases n - i,
        {
            proof {
                assert(kv[i as int] == ((self.entries@[i as int].0.0@, self.entries@[
                    i as int
                ].0.1@), self.entries@[i as int].1@));
            }
            if self.entries[i].0.0 == *group && self.entries[i].0.1 == *artifact {
                proof {
                    lemma_pairs_to_map_get(kv, i as int);
                }
                let slot = &mut self.entries[i];
                slot.1.is_selected = value;
                proof {
                    let kv2 = entry_kv_views(self.entries@);
                    assert forall|j: int| 0 <= j < kv2.len() implies kv2[j] == kv.update(
                        i as int,
                        (k, self.entries@[i as int].1@),
                    )[j] by {
                        assert(kv2[j] == ((self.entries@[j].0.0@, self.entries@[j].0.1@),
                        self.entries@[j].1@));
                        assert(kv[j] == ((old(self).entries@[j].0.0@, old(self).entries@[
                            j
                        ].0.1@), old(self).entries@[j].1@));
                    }
                    assert(kv2 =~= kv.update(i as int, (k, self.entries@[i as int].1@)));
                    lemma_pairs_to_map_update(kv, i as int, self.entries@[i as int].1@);
                    assert forall|a: int, b: int|
                        0 <= a < b < kv2.len() implies (#[trigger] kv2[a]).0 != (
                    #[trigger] kv2[b]).0 by {
                        assert(kv2[a].0 == kv[a].0 && kv2[b].0 == kv[b].0);
                    }
                }
                return ;
            }
            i = i + 1;
        }
        proof {
            lemma_pairs_to_map_dom(kv);
        }
    }
}

// ---------------------------------------------------------------------
// Changes that follow shared locations.
// ---------------------------------------------------------------------

/// Two entries share a textual site: rewriting one rewrites the other.
pub open spec fn shares_location(a: Seq<LocationView>, b: Seq<LocationView>) -> bool {
    exists|i: int, j: int| 0 <= i < a.len() && 0 <= j < b.len() && a[i] == b[j]
}

pub open spec fn spec_toggled(e: EntryView) -> EntryView {
    EntryView { is_selected: !e.is_selected, ..e }
}

/// Toggling one key flips every entry that shares a location with it.
pub open spec fn spec_toggle_shared(
    m: Map<(Seq<char>, Seq<char>), EntryView>,
    k: (Seq<char>, Seq<char>),
) -> Map<(Seq<char>, Seq<char>), EntryView> {
    if !m.dom().contains(k) {
        m
    } else {
        Map::new(
            |k2: (Seq<char>, Seq<char>)| m.dom().contains(k2),
            |k2: (Seq<char>, Seq<char>)|
                if shares_location(m[k2].locations, m[k].locations) {
                    spec_toggled(m[k2])
                } else {
                    m[k2]
                },
        )
    }
}

pub open spec fn spec_step(t: VersionType, forward: bool) -> VersionType {
    if forward {
        t.spec_next()
    } else {
        t.spec_prev()
    }
}

/// The tier shown after stepping from `t` until a tier with a candidate
/// comes up, wrapping around at most once: with no candidate in any
/// tier, the full cycle of four steps lands back on the tier it
/// started from.
pub open spec fn spec_cycle(o: UpdateOptionsView, t: VersionType, forward: bool) -> VersionType {
    let t1 = spec_step(t, forward);
    if spec_tier_exists(o, t1) {
        t1
    } else {
        let t2 = spec_step(t1, forward);
        if spec_tier_exists(o, t2) {
            t2
        } else {
            let t3 = spec_step(t2, forward);
            if spec_tier_exists(o, t3) {
                t3
            } else {
                spec_step(t3, forward)
            }
        }
    }
}

pub open spec fn spec_retier(e: EntryView, forward: bool) -> EntryView {
    match e.update_options {
        None => e,
        Some(o) => EntryView { version_type: spec_cycle(o, e.version_type, forward), ..e },
    }
}

/// Stepping one key's tier steps every entry that shares a location
/// with it.
pub open spec fn spec_retier_shared(
    m: Map<(Seq<char>, Seq<char>), EntryView>,
    k: (Seq<char>, Seq<char>),
    forward: bool,
) -> Map<(Seq<char>, Seq<char>), EntryView> {
    if !m.dom().contains(k) {
        m
    } else {
        Map::new(
            |k2: (Seq<char>, Seq<char>)| m.dom().contains(k2),
            |k2: (Seq<char>, Seq<char>)|
                if shares_location(m[k2].locations, m[k].locations) {
                    spec_retier(m[k2], forward)
                } else {
                    m[k2]
                },
        )
    }
}

fn clone_locations(locations: &Vec<Location>) -> (r: Vec<Location>)
    ensures
        r@ == locations@,
{
    let r = locations.clone();
    proof {
        assert forall|i: int| 0 <= i < r@.len() implies r@[i] == locations@[i] by {
            assert(vstd::pervasive::cloned::<Location>(locations@[i], r@[i]));
        }
        assert(r@ =~= locations@);
    }
    r
}

/// Whether the two location lists meet.
fn shares_any(a: &Vec<Location>, b: &Vec<Location>) -> (r: bool)
    ensures
        r == shares_location(a.deep_view(), b.deep_view()),
{
    let n = a.len();
    let mut i: usize = 0;
    while i < n
        invariant
            0 <= i <= n == a@.len(),
            forall|x: int, y: int|
                0 <= x < i && 0 <= y < b.deep_view().len() ==> a.deep_view()[x] != b.deep_view()[
                    y
                ],
        decreases n - i,
    {
        let m = b.len();
        let mut j: usize = 0;
        while j < m
            invariant
                0 <= i < n == a@.len(),
                0 <= j <= m == b@.len(),
                forall|x: int, y: int|
                    0 <= x < i && 0 <= y < b.deep_view().len() ==> a.deep_view()[x]
                        != b.deep_view()[y],
                forall|y: int| 0 <= y < j ==> a.deep_view()[i as int] != b.deep_view()[y],
            decreases m - j,
        {
            if a[i] == b[j] {
                proof {
                    assert(a.deep_view()[i as int] == a@[i as int]@);
                    assert(b.deep_view()[j as int] == b@[j as int]@);
                }
                return true;
            }
            proof {
                assert(a.deep_view()[i as int] == a@[i as int]@);
                assert(b.deep_view()[j as int] == b@[j as int]@);
            }
            j = j + 1;
        }
        i = i + 1;
    }
    false
}

impl EntryMap {
    /// Flip the selection of a key's entry and of every entry that shares
    /// one of its locations.
    pub fn toggle_selection(&mut self, group: &Group, artifact: &Artifact)
        requires
            old(self).wf(),
        ensures
            final(self).wf(),
            final(self)@ == spec_toggle_shared(old(self)@, (group@, artifact@)),
    {
        let ghost kv = entry_kv_views(old(self).entries@);
        let ghost k = (group@, artifact@);
        proof {
            lemma_pairs_to_map_dom(kv);
        }
        let target = match self.get(group, artifact) {
            Some(e) => clone_locations(&e.locations),
            None => {
                return ;
            },
        };
        let ghost tlocs = target.deep_view();
        proof {
            assert(tlocs =~= old(self)@[k].locations);
        }
        let n = self.entries.len();
        let mut i: usize = 0;
        while i < n
            invariant
                0 <= i <= n,
                old(self).entries@.len() == n,
                self.entries@.len() == n,
                kv == entry_kv_views(old(self).entries@),
                pairs_unique(kv),
                old(self)@ == pairs_to_map(kv),
                old(self)@.dom().contains(k),
                tlocs == old(self)@[k].locations,
                tlocs == target.deep_view(),
                forall|j: int| 0 <= j < n ==> (#[trigger] entry_kv_views(self.entries@)[j]).0
                    == kv[j].0,
                forall|j: int|
                    0 <= j < i ==> (#[trigger] entry_kv_views(self.entries@)[j]).1 == (
                    if shares_location(kv[j].1.locations, tlocs) {
                        spec_toggled(kv[j].1)
                    } else {
                        kv[j].1
                    }),
                forall|j: int|
                    i <= j < n ==> (#[trigger] entry_kv_views(self.entries@)[j]).1 == kv[j].1,
            decreases n - i,
        {
            proof {
                assert(entry_kv_views(self.entries@)[i as int] == ((self.entries@[
                    i as int
                ].0.0@, self.entries@[i as int].0.1@), self.entries@[i as int].1@));
            }
            let ghost pre_entries = self.entries@;
            proof {
                assert forall|j: int|
                    0 <= j < n implies (#[trigger] entry_kv_views(pre_entries)[j]) == ((
                pre_entries[j].0.0@, pre_entries[j].0.1@), pre_entries[j].1@) by {}
            }
            let hit = shares_any(&self.entries[i].1.locations, &target);
            if hit {
                let slot = &mut self.entries[i];
                slot.1.is_selected = !slot.1.is_selected;
            }
            proof {
                assert forall|j: int|
                    0 <= j < n implies (#[trigger] entry_kv_views(self.entries@)[j]).0 == kv[
                    j
                ].0 && (j != i ==> entry_kv_views(self.entries@)[j].1 == entry_kv_views(
                    pre_entries,
                )[j].1) by {
                    assert(entry_kv_views(self.entries@)[j] == ((self.entries@[j].0.0@,
                    self.entries@[j].0.1@), self.entries@[j].1@));
                    assert(entry_kv_views(pre_entries)[j] == ((pre_entries[j].0.0@,
                    pre_entries[j].0.1@), pre_entries[j].1@));
                    if j != i {
                        assert(self.entries@[j] == pre_entries[j]);
                    } else {
                        assert(self.entries@[j].0 == pre_entries[j].0);
                    }
                }
                assert(entry_kv_views(self.entries@)[i as int].1 == (
                    if shares_location(kv[i as int].1.locations, tlocs) {
                        spec_toggled(kv[i as int].1)
                    } else {
                        kv[i as int].1
                    }
                )) by {
                    assert(entry_kv_views(self.entries@)[i as int] == ((self.entries@[
                        i as int
                    ].0.0@, self.entries@[i as int].0.1@), self.entries@[i as int].1@));
                    assert(entry_kv_views(pre_entries)[i as int] == ((pre_entries[
                        i as int
                    ].0.0@, pre_entries[i as int].0.1@), pre_entries[i as int].1@));
                }
            }
            i = i + 1;
        }
        proof {
            let kv2 = entry_kv_views(self.entries@);
            let m2 = spec_toggle_shared(old(self)@, k);
            lemma_pairs_to_map_dom(kv2);
            assert forall|a: int, b: int| 0 <= a < b < kv2.len() implies (#[trigger] kv2[a]).0
                != (#[trigger] kv2[b]).0 by {
                assert(kv2[a].0 == kv[a].0 && kv2[b].0 == kv[b].0);
            }
            assert forall|k2: (Seq<char>, Seq<char>)| #[trigger]
                self@.dom().contains(k2) == m2.dom().contains(k2) by {
                if self@.dom().contains(k2) {
                    let j = choose|j: int| 0 <= j < kv2.len() && (#[trigger] kv2[j]).0 == k2;
                    assert(kv[j].0 == k2);
                    lemma_pairs_to_map_get(kv, j);
                }
                if m2.dom().contains(k2) {
                    let j = choose|j: int| 0 <= j < kv.len() && (#[trigger] kv[j]).0 == k2;
                    assert(kv2[j].0 == k2);
                    lemma_pairs_to_map_get(kv2, j);
                }
            }
            assert forall|k2: (Seq<char>, Seq<char>)| #[trigger]
                self@.dom().contains(k2) implies self@[k2] == m2[k2] by {
                let j = choose|j: int| 0 <= j < kv2.len() && (#[trigger] kv2[j]).0 == k2;
                lemma_pairs_to_map_get(kv2, j);
                lemma_pairs_to_map_get(kv, j);
            }
            assert(self@ =~= m2);
        }
    }

    /// Show the next tier that holds a candidate, for a key's entry and
    /// every entry that shares one of its locations.
    pub fn next_version_type(&mut self, group: &Group, artifact: &Artifact)
        requires
            old(self).wf(),
        ensures
            final(self).wf(),
            final(self)@ == spec_retier_shared(old(self)@, (group@, artifact@), true),
    {
        self.change_version_type(group, artifact, true);
    }

    /// Show the previous tier that holds a candidate, likewise.
    pub fn prev_version_type(&mut self, group: &Group, artifact: &Artifact)
        requires
            old(self).wf(),
        ensures
            final(self).wf(),
            final(self)@ == spec_retier_shared(old(self)@, (group@, artifact@), false),
    {
        self.change_version_type(group, artifact, false);
    }

    fn step_type(t: VersionType, forward: bool) -> (r: VersionType)
        ensures
            r == spec_step(t, forward),
    {
        if forward {
            t.next()
        } else {
            t.prev()
        }
    }

    fn change_version_type(&mut self, group: &Group, artifact: &Artifact, forward: bool)
        requires
            old(self).wf(),
        ensures
            final(self).wf(),
            final(self)@ == spec_retier_shared(old(self)@, (group@, artifact@), forward),
    {
        let ghost kv = entry_kv_views(old(self).entries@);
        let ghost k = (group@, artifact@);
        proof {
            lemma_pairs_to_map_dom(kv);
        }
        let target = match self.get(group, artifact) {
            Some(e) => clone_locations(&e.locations),
            None => {
                return ;
            },
        };
        let ghost tlocs = target.deep_view();
        proof {
            assert(tlocs =~= old(self)@[k].locations);
        }
        let n = self.entries.len();
        let mut i: usize = 0;
        while i < n
            invariant
                0 <= i <= n,
                old(self).entries@.len() == n,
                self.entries@.len() == n,
                kv == entry_kv_views(old(self).entries@),
                pairs_unique(kv),
                old(self)@ == pairs_to_map(kv),
                old(self)@.dom().contains(k),
                tlocs == old(self)@[k].locations,
                tlocs == target.deep_view(),
                forall|j: int| 0 <= j < n ==> (#[trigger] entry_kv_views(self.entries@)[j]).0
                    == kv[j].0,
                forall|j: int|
                    0 <= j < i ==> (#[trigger] entry_kv_views(self.entries@)[j]).1 == (
                    if shares_location(kv[j].1.locations, tlocs) {
                        spec_retier(kv[j].1, forward)
                    } else {
                        kv[j].1
                    }),
                forall|j: int|
                    i <= j < n ==> (#[trigger] entry_kv_views(self.entries@)[j]).1 == kv[j].1,
            decreases n - i,
        {
            proof {
                assert(entry_kv_views(self.entries@)[i as int] == ((self.entries@[
                    i as int
                ].0.0@, self.entries@[i as int].0.1@), self.entries@[i as int].1@));
            }
            let ghost pre_entries = self.entries@;
            proof {
                assert forall|j: int|
                    0 <= j < n implies (#[trigger] entry_kv_views(pre_entries)[j]) == ((
                pre_entries[j].0.0@, pre_entries[j].0.1@), pre_entries[j].1@) by {}
            }
            let hit = shares_any(&self.entries[i].1.locations, &target);
            if hit {
                let slot = &mut self.entries[i];
                let new_type = match &slot.1.update_options {
                    Some(update_options) => {
                        let mut t = Self::step_type(slot.1.version_type, forward);
                        if !Self::version_type_exists(update_options, t) {
                            t = Self::step_type(t, forward);
                            if !Self::version_type_exists(update_options, t) {
                                t = Self::step_type(t, forward);
                                if !Self::version_type_exists(update_options, t) {
                                    t = Self::step_type(t, forward);
                                }
                            }
                        }
                        Some(t)
                    },
                    None => None,
                };
                match new_type {
                    Some(t) => {
                        slot.1.version_type = t;
                    },
                    None => {},
                }
            }
            proof {
                assert forall|j: int|
                    0 <= j < n implies (#[trigger] entry_kv_views(self.entries@)[j]).0 == kv[
                    j
                ].0 && (j != i ==> entry_kv_views(self.entries@)[j].1 == entry_kv_views(
                    pre_entries,
                )[j].1) by {
                    assert(entry_kv_views(self.entries@)[j] == ((self.entries@[j].0.0@,
                    self.entries@[j].0.1@), self.entries@[j].1@));
                    assert(entry_kv_views(pre_entries)[j] == ((pre_entries[j].0.0@,
                    pre_entries[j].0.1@), pre_entries[j].1@));
                    if j != i {
                        assert(self.entries@[j] == pre_entries[j]);
                    } else {
                        assert(self.entries@[j].0 == pre_entries[j].0);
                    }
                }
                assert(entry_kv_views(self.entries@)[i as int].1 == (
                    if shares_location(kv[i as int].1.locations, tlocs) {
                        spec_retier(kv[i as int].1, forward)
                    } else {
                        kv[i as int].1
                    }
                )) by {
                    assert(entry_kv_views(self.entries@)[i as int] == ((self.entries@[
                        i as int
                    ].0.0@, self.entries@[i as int].0.1@), self.entries@[i as int].1@));
                    assert(entry_kv_views(pre_entries)[i as int] == ((pre_entries[
                        i as int
                    ].0.0@, pre_entries[i as int].0.1@), pre_entries[i as int].1@));
                }
            }
            i = i + 1;
        }
        proof {
            let kv2 = entry_kv_views(self.entries@);
            let m2 = spec_retier_shared(old(self)@, k, forward);
            lemma_pairs_to_map_dom(kv2);
            assert forall|a: int, b: int| 0 <= a < b < kv2.len() implies (#[trigger] kv2[a]).0
                != (#[trigger] kv2[b]).0 by {
                assert(kv2[a].0 == kv[a].0 && kv2[b].0 == kv[b].0);
            }
            assert forall|k2: (Seq<char>, Seq<char>)| #[trigger]
                self@.dom().contains(k2) == m2.dom().contains(k2) by {
                if self@.dom().contains(k2) {
                    let j = choose|j: int| 0 <= j < kv2.len() && (#[trigger] kv2[j]).0 == k2;
                    assert(kv[j].0 == k2);
                    lemma_pairs_to_map_get(kv, j);
                }
                if m2.dom().contains(k2) {
                    let j = choose|j: int| 0 <= j < kv.len() && (#[trigger] kv[j]).0 == k2;
                    assert(kv2[j].0 == k2);
                    lemma_pairs_to_map_get(kv2, j);
                }
            }
            assert forall|k2: (Seq<char>, Seq<char>)| #[trigger]
                self@.dom().contains(k2) implies self@[k2] == m2[k2] by {
                let j = choose|j: int| 0 <= j < kv2.len() && (#[trigger] kv2[j]).0 == k2;
                lemma_pairs_to_map_get(kv2, j);
                lemma_pairs_to_map_get(kv, j);
            }
            assert(self@ =~= m2);
        }
    }
}

// ---------------------------------------------------------------------
// The listed and the chosen entries.
// ---------------------------------------------------------------------

pub open spec fn key_le(a: (Seq<char>, Seq<char>), b: (Seq<char>, Seq<char>)) -> bool {
    key_lt(a, b) || a == b
}

pub open spec fn wu_model(s: Seq<(Group, Artifact, Entry)>) -> Seq<
    ((Seq<char>, Seq<char>), EntryView),
> {
    s.map_values(|t: (Group, Artifact, Entry)| ((t.0@, t.1@), t.2@))
}

pub open spec fn sel_model(s: Seq<(Group, Artifact, Version, Version, Vec<Location>)>) -> Seq<
    (Seq<char>, Seq<char>, VersionView, VersionView, Seq<LocationView>),
> {
    s.map_values(
        |t: (Group, Artifact, Version, Version, Vec<Location>)|
            (t.0@, t.1@, t.2@, t.3@, t.4.deep_view()),
    )
}

proof fn lemma_key_order(a: (Seq<char>, Seq<char>), b: (Seq<char>, Seq<char>))
    ensures
        key_lt(a, b) || key_lt(b, a) || a == b,
        key_lt(a, b) ==> !key_lt(b, a) && a != b,
{
    crate::version::lemma_lex_cmp_eq(a.0, b.0);
    crate::version::lemma_lex_cmp_eq(a.1, b.1);
    crate::version::lemma_lex_cmp_antisym(a.0, b.0);
    crate::version::lemma_lex_cmp_antisym(a.1, b.1);
    crate::version::lemma_lex_cmp_antisym(b.0, a.0);
    crate::version::lemma_lex_cmp_antisym(b.1, a.1);
    if a.0 == b.0 && a.1 == b.1 {
        assert(a == b);
    }
}

proof fn lemma_key_lt_trans(
    a: (Seq<char>, Seq<char>),
    b: (Seq<char>, Seq<char>),
    c: (Seq<char>, Seq<char>),
)
    requires
        key_lt(a, b),
        key_lt(b, c),
    ensures
        key_lt(a, c),
{
    crate::version::lemma_lex_cmp_eq(a.0, b.0);
    crate::version::lemma_lex_cmp_eq(b.0, c.0);
    crate::version::lemma_lex_cmp_eq(a.0, c.0);
    if lex_cmp(a.0, b.0) == Ordering::Less && lex_cmp(b.0, c.0) == Ordering::Less {
        crate::version::lemma_lex_cmp_trans(a.0, b.0, c.0);
    } else if lex_cmp(a.0, b.0) == Ordering::Equal && lex_cmp(b.0, c.0) == Ordering::Equal {
        crate::version::lemma_lex_cmp_trans(a.1, b.1, c.1);
    }
}

proof fn lemma_key_le_trans(
    a: (Seq<char>, Seq<char>),
    b: (Seq<char>, Seq<char>),
    c: (Seq<char>, Seq<char>),
)
    requires
        key_le(a, b),
        key_le(b, c),
    ensures
        key_le(a, c),
{
    if key_lt(a, b) && key_lt(b, c) {
        lemma_key_lt_trans(a, b, c);
    }
}

/// Whether one key orders strictly before another.
fn key_less(g1: &Group, a1: &Artifact, g2: &Group, a2: &Artifact) -> (r: bool)
    ensures
        r == key_lt((g1@, a1@), (g2@, a2@)),
{
    match crate::version::str_lex_cmp(g1.value.as_str(), g2.value.as_str()) {
        Ordering::Less => true,
        Ordering::Greater => false,
        Ordering::Equal => matches!(
            crate::version::str_lex_cmp(a1.value.as_str(), a2.value.as_str()),
            Ordering::Less
        ),
    }
}

/// Insert an element into a key-sorted list, before everything its key
/// orders strictly below.
fn insert_sorted(acc: &mut Vec<(Group, Artifact, Entry)>, x: (Group, Artifact, Entry)) -> (p:
    Ghost<int>)
    requires
        forall|j1: int, j2: int|
            0 <= j1 < j2 < wu_model(old(acc)@).len() ==> key_le(
                (#[trigger] wu_model(old(acc)@)[j1]).0,
                (#[trigger] wu_model(old(acc)@)[j2]).0,
            ),
    ensures
        0 <= p@ <= old(acc)@.len(),
        wu_model(final(acc)@) == wu_model(old(acc)@).insert(p@, ((x.0@, x.1@), x.2@)),
        forall|j1: int, j2: int|
            0 <= j1 < j2 < wu_model(final(acc)@).len() ==> key_le(
                (#[trigger] wu_model(final(acc)@)[j1]).0,
                (#[trigger] wu_model(final(acc)@)[j2]).0,
            ),
{
    let ghost xm = ((x.0@, x.1@), x.2@);
    let ghost old_m = wu_model(old(acc)@);
    let mut pos: usize = acc.len();
    while pos > 0 && key_less(&x.0, &x.1, &acc[pos - 1].0, &acc[pos - 1].1)
        invariant
            0 <= pos <= acc@.len(),
            acc@ == old(acc)@,
            old_m == wu_model(acc@),
            forall|j: int|
                pos <= j < acc@.len() ==> key_lt((x.0@, x.1@), (#[trigger] old_m[j]).0),
        decreases pos,
    {
        proof {
            assert(old_m[pos - 1] == ((acc@[pos - 1].0@, acc@[pos - 1].1@), acc@[pos - 1].2@));
        }
        pos = pos - 1;
    }
    proof {
        if pos > 0 {
            assert(old_m[pos - 1] == ((acc@[pos - 1].0@, acc@[pos - 1].1@), acc@[pos - 1].2@));
        }
    }
    acc.insert(pos, x);
    proof {
        assert forall|j: int| 0 <= j < wu_model(acc@).len() implies wu_model(acc@)[j]
            == old_m.insert(pos as int, xm)[j] by {
            old_m.insert_ensures(pos as int, xm);
            assert(wu_model(acc@)[j] == ((acc@[j].0@, acc@[j].1@), acc@[j].2@));
            if j < pos {
                assert(acc@[j] == old(acc)@[j]);
                assert(old_m[j] == ((old(acc)@[j].0@, old(acc)@[j].1@), old(acc)@[j].2@));
            } else if j > pos {
                assert(acc@[j] == old(acc)@[j - 1]);
                assert(old_m[j - 1] == ((old(acc)@[j - 1].0@, old(acc)@[j - 1].1@), old(
                    acc,
                )@[j - 1].2@));
            }
        }
        assert(wu_model(acc@) =~= old_m.insert(pos as int, xm));
        old_m.insert_ensures(pos as int, xm);
        let am = wu_model(acc@);
        assert forall|j1: int, j2: int| 0 <= j1 < j2 < am.len() implies key_le(
            (#[trigger] am[j1]).0,
            (#[trigger] am[j2]).0,
        ) by {
            if j1 == pos {
                assert(am[j2] == old_m[j2 - 1]);
                assert(key_lt(xm.0, old_m[j2 - 1].0));
            } else if j2 == pos {
                assert(am[j1] == old_m[j1]);
                lemma_key_order(xm.0, old_m[pos - 1].0);
                assert(key_le(old_m[pos - 1].0, xm.0));
                if j1 < pos - 1 {
                    lemma_key_le_trans(old_m[j1].0, old_m[pos - 1].0, xm.0);
                }
            } else if j1 < pos && j2 > pos {
                assert(am[j1] == old_m[j1]);
                assert(am[j2] == old_m[j2 - 1]);
                if j1 < j2 - 1 {
                } else {
                    assert(key_lt(xm.0, old_m[j2 - 1].0));
                    lemma_key_order(xm.0, old_m[pos - 1].0);
                }
            } else if j2 < pos {
                assert(am[j1] == old_m[j1]);
                assert(am[j2] == old_m[j2]);
            } else {
                assert(am[j1] == old_m[j1 - 1]);
                assert(am[j2] == old_m[j2 - 1]);
            }
        }
    }
    Ghost(pos as int)
}

impl EntryMap {
    /// Every entry that has update options, sorted by organization and
    /// artifact.
    pub fn with_updates(&self) -> (r: Vec<(Group, Artifact, Entry)>)
        requires
            self.wf(),
        ensures
            forall|i: int|
                0 <= i < wu_model(r@).len() ==> self@.dom().contains(
                    (#[trigger] wu_model(r@)[i]).0,
                ) && wu_model(r@)[i].1 == self@[wu_model(r@)[i].0] && wu_model(r@)[
                    i
                ].1.update_options is Some,
            forall|k: (Seq<char>, Seq<char>)| #[trigger]
                self@.dom().contains(k) && self@[k].update_options is Some ==> exists|i: int|
                    0 <= i < wu_model(r@).len() && (#[trigger] wu_model(r@)[i]).0 == k,
            forall|i: int, j: int|
                0 <= i < j < wu_model(r@).len() ==> key_lt(
                    (#[trigger] wu_model(r@)[i]).0,
                    (#[trigger] wu_model(r@)[j]).0,
                ),
    {
        broadcast use vstd::seq_lib::group_to_multiset_ensures;

        let ghost kv = entry_kv_views(self.entries@);
        proof {
            lemma_pairs_to_map_dom(kv);
        }
        let n = self.entries.len();

        // gather the entries that have options
        let mut c: Vec<(Group, Artifact, Entry)> = Vec::new();
        let mut i: usize = 0;
        while i < n
            invariant
                0 <= i <= n == self.entries@.len(),
                kv == entry_kv_views(self.entries@),
                pairs_unique(kv),
                self@ == pairs_to_map(kv),
                forall|j: int|
                    0 <= j < wu_model(c@).len() ==> self@.dom().contains(
                        (#[trigger] wu_model(c@)[j]).0,
                    ) && wu_model(c@)[j].1 == self@[wu_model(c@)[j].0] && wu_model(c@)[
                        j
                    ].1.update_options is Some,
                forall|j: int|
                    0 <= j < wu_model(c@).len() ==> exists|l: int|
                        0 <= l < i && (#[trigger] kv[l]).0 == (#[trigger] wu_model(c@)[j]).0,
                forall|j1: int, j2: int|
                    0 <= j1 < j2 < wu_model(c@).len() ==> (#[trigger] wu_model(c@)[j1]).0 != (
                    #[trigger] wu_model(c@)[j2]).0,
                forall|l: int|
                    0 <= l < i && (#[trigger] kv[l]).1.update_options is Some ==> exists|j: int|
                        0 <= j < wu_model(c@).len() && (#[trigger] wu_model(c@)[j]).0 == kv[l].0,
            decreases n - i,
        {
            let ghost pre = wu_model(c@);
            proof {
                assert(kv[i as int] == ((self.entries@[i as int].0.0@, self.entries@[
                    i as int
                ].0.1@), self.entries@[i as int].1@));
            }
            if self.entries[i].1.update_options.is_some() {
                proof {
                    lemma_pairs_to_map_get(kv, i as int);
                }
                let t = (
                    self.entries[i].0.0.clone(),
                    self.entries[i].0.1.clone(),
                    self.entries[i].1.clone(),
                );
                c.push(t);
                proof {
                    assert forall|j: int| 0 <= j < wu_model(c@).len() implies #[trigger] wu_model(
                        c@,
                    )[j] == (if j < pre.len() {
                        pre[j]
                    } else {
                        kv[i as int]
                    }) by {
                        assert(wu_model(c@)[j] == ((c@[j].0@, c@[j].1@), c@[j].2@));
                        if j < pre.len() {
                            assert(pre[j] == ((c@[j].0@, c@[j].1@), c@[j].2@));
                        }
                    }
                    assert forall|j1: int, j2: int|
                        0 <= j1 < j2 < wu_model(c@).len() implies (#[trigger] wu_model(c@)[
                        j1
                    ]).0 != (#[trigger] wu_model(c@)[j2]).0 by {
                        if j2 == wu_model(c@).len() - 1 {
                            let l = choose|l: int|
                                0 <= l < i && (#[trigger] kv[l]).0 == pre[j1].0;
                        }
                    }
                    assert forall|l: int|
                        0 <= l < i + 1 && (#[trigger] kv[l]).1.update_options is Some implies
                        exists|j: int|
                            0 <= j < wu_model(c@).len() && (#[trigger] wu_model(c@)[j]).0 == kv[
                                l
                            ].0 by {
                        if l < i {
                            let j0 = choose|j: int|
                                0 <= j < pre.len() && (#[trigger] pre[j]).0 == kv[l].0;
                            assert(wu_model(c@)[j0].0 == kv[l].0);
                        } else {
                            assert(wu_model(c@)[pre.len() as int].0 == kv[l].0);
                        }
                    }
                }
            }
            i = i + 1;
        }

        // order them by key
        let ghost cm = wu_model(c@);
        proof {
            assert(cm.take(0) =~= Seq::<((Seq<char>, Seq<char>), EntryView)>::empty());
        }
        let mut acc: Vec<(Group, Artifact, Entry)> = Vec::new();
        let m = c.len();
        let mut si: usize = 0;
        while si < m
            invariant
                0 <= si <= m == c@.len(),
                cm == wu_model(c@),
                cm.len() == m,
                forall|j: int|
                    0 <= j < cm.len() ==> self@.dom().contains((#[trigger] cm[j]).0) && cm[j].1
                        == self@[cm[j].0] && cm[j].1.update_options is Some,
                forall|j1: int, j2: int|
                    0 <= j1 < j2 < cm.len() ==> (#[trigger] cm[j1]).0 != (#[trigger] cm[j2]).0,
                wu_model(acc@).to_multiset() == cm.take(si as int).to_multiset(),
                forall|j1: int, j2: int|
                    0 <= j1 < j2 < wu_model(acc@).len() ==> key_le(
                        (#[trigger] wu_model(acc@)[j1]).0,
                        (#[trigger] wu_model(acc@)[j2]).0,
                    ),
            decreases m - si,
        {
            proof {
                assert(cm[si as int] == ((c@[si as int].0@, c@[si as int].1@), c@[
                    si as int
                ].2@));
            }
            let x = (c[si].0.clone(), c[si].1.clone(), c[si].2.clone());
            let ghost xm = ((x.0@, x.1@), x.2@);
            proof {
                assert(xm == cm[si as int]);
            }
            let ghost pre_acc = wu_model(acc@);
            let p = insert_sorted(&mut acc, x);
            proof {
                broadcast use vstd::multiset::group_multiset_axioms;
                broadcast use vstd::seq_lib::group_to_multiset_ensures;

                pre_acc.insert_ensures(p@, xm);
                assert(wu_model(acc@) =~= pre_acc.take(p@).push(xm) + pre_acc.skip(p@));
                vstd::seq_lib::lemma_multiset_commutative(
                    pre_acc.take(p@).push(xm),
                    pre_acc.skip(p@),
                );
                vstd::seq_lib::lemma_multiset_commutative(pre_acc.take(p@), pre_acc.skip(p@));
                assert(pre_acc.take(p@) + pre_acc.skip(p@) =~= pre_acc);
                assert(cm.take(si as int + 1).drop_last() =~= cm.take(si as int));
                assert(cm.take(si as int + 1) =~= cm.take(si as int).push(cm[si as int]));
                assert(wu_model(acc@).to_multiset() =~= cm.take(si as int + 1).to_multiset());
            }
            si = si + 1;
        }
        proof {
            let am = wu_model(acc@);
            assert(cm.take(m as int) =~= cm);
            assert(am.to_multiset() == cm.to_multiset());
            // every slot holds one of the gathered entries
            assert forall|j: int| 0 <= j < am.len() implies self@.dom().contains(
                (#[trigger] am[j]).0,
            ) && am[j].1 == self@[am[j].0] && am[j].1.update_options is Some by {
                assert(am.contains(am[j]));
                assert(am.to_multiset().count(am[j]) > 0);
                assert(cm.contains(am[j]));
                let l = choose|l: int| 0 <= l < cm.len() && cm[l] == am[j];
            }
            // and every gathered entry fills some slot
            assert forall|k: (Seq<char>, Seq<char>)| #[trigger]
                self@.dom().contains(k) && self@[k].update_options is Some implies exists|i2: int|
                0 <= i2 < am.len() && (#[trigger] am[i2]).0 == k by {
                let l0 = choose|l: int| 0 <= l < kv.len() && (#[trigger] kv[l]).0 == k;
                lemma_pairs_to_map_get(kv, l0);
                let j0 = choose|j: int|
                    0 <= j < cm.len() && (#[trigger] cm[j]).0 == kv[l0].0;
                assert(cm.contains(cm[j0]));
                assert(cm.to_multiset().count(cm[j0]) > 0);
                assert(am.to_multiset().count(cm[j0]) > 0);
                assert(am.contains(cm[j0]));
                let i2 = choose|i2: int| 0 <= i2 < am.len() && am[i2] == cm[j0];
                assert(am[i2].0 == k);
            }
            // distinct values, so the order is strict
            assert(cm.no_duplicates()) by {
                assert forall|a2: int, b2: int|
                    0 <= a2 < cm.len() && 0 <= b2 < cm.len() && a2 != b2 implies cm[a2] != cm[
                    b2
                ] by {
                    if a2 < b2 {
                        assert(cm[a2].0 != cm[b2].0);
                    } else {
                        assert(cm[b2].0 != cm[a2].0);
                    }
                }
            }
            cm.lemma_multiset_has_no_duplicates();
            am.lemma_multiset_has_no_duplicates_conv();
            assert forall|j1: int, j2: int|
                0 <= j1 < j2 < am.len() implies key_lt(
                (#[trigger] am[j1]).0,
                (#[trigger] am[j2]).0,
            ) by {
                if am[j1].0 == am[j2].0 {
                    assert(am.contains(am[j1]));
                    assert(cm.contains(am[j1]));
                    assert(am.contains(am[j2]));
                    assert(cm.contains(am[j2]));
                    let l1 = choose|l: int| 0 <= l < cm.len() && cm[l] == am[j1];
                    let l2 = choose|l: int| 0 <= l < cm.len() && cm[l] == am[j2];
                    if l1 < l2 {
                        assert(cm[l1].0 != cm[l2].0);
                    } else if l2 < l1 {
                        assert(cm[l2].0 != cm[l1].0);
                    }
                    assert(am[j1] == am[j2]);
                    assert(am.no_duplicates());
                    assert(false);
                }
                lemma_key_order(am[j1].0, am[j2].0);
            }
        }
        acc
    }

    /// Every selected entry whose shown tier holds a candidate: its key,
    /// its current version, the chosen version, and the locations to
    /// rewrite.
    pub fn selected(&self) -> (r: Vec<(Group, Artifact, Version, Version, Vec<Location>)>)
        requires
            self.wf(),
        ensures
            forall|i: int|
                0 <= i < sel_model(r@).len() ==> {
                    let t = #[trigger] sel_model(r@)[i];
                    &&& self@.dom().contains((t.0, t.1))
                    &&& self@[(t.0, t.1)].is_selected
                    &&& t.2 == self@[(t.0, t.1)].version
                    &&& spec_current_update_version(self@[(t.0, t.1)]) == Some(t.3)
                    &&& t.4 == self@[(t.0, t.1)].locations
                },
            forall|k: (Seq<char>, Seq<char>)| #[trigger]
                self@.dom().contains(k) && self@[k].is_selected && spec_current_update_version(
                    self@[k],
                ) is Some ==> exists|i: int|
                    0 <= i < sel_model(r@).len() && ((#[trigger] sel_model(r@)[i]).0, sel_model(
                        r@,
                    )[i].1) == k,
    {
        let ghost kv = entry_kv_views(self.entries@);
        proof {
            lemma_pairs_to_map_dom(kv);
        }
        let n = self.entries.len();
        let mut r: Vec<(Group, Artifact, Version, Version, Vec<Location>)> = Vec::new();
        let mut i: usize = 0;
        while i < n
            invariant
                0 <= i <= n == self.entries@.len(),
                kv == entry_kv_views(self.entries@),
                pairs_unique(kv),
                self@ == pairs_to_map(kv),
                forall|j: int|
                    0 <= j < sel_model(r@).len() ==> {
                        let t = #[trigger] sel_model(r@)[j];
                        &&& self@.dom().contains((t.0, t.1))
                        &&& self@[(t.0, t.1)].is_selected
                        &&& t.2 == self@[(t.0, t.1)].version
                        &&& spec_current_update_version(self@[(t.0, t.1)]) == Some(t.3)
                        &&& t.4 == self@[(t.0, t.1)].locations
                    },
                forall|l: int|
                    0 <= l < i && (#[trigger] kv[l]).1.is_selected
                        && spec_current_update_version(kv[l].1) is Some ==> exists|j: int|
                        0 <= j < sel_model(r@).len() && ((#[trigger] sel_model(r@)[j]).0,
                        sel_model(r@)[j].1) == kv[l].0,
            decreases n - i,
        {
            let ghost pre = sel_model(r@);
            proof {
                assert(kv[i as int] == ((self.entries@[i as int].0.0@, self.entries@[
                    i as int
                ].0.1@), self.entries@[i as int].1@));
            }
            let entry = &self.entries[i].1;
            if entry.is_selected {
                let chosen = match entry.current_update_version() {
                    Some(v) => Some(v.clone()),
                    None => None,
                };
                match chosen {
                    Some(v) => {
                        proof {
                            lemma_pairs_to_map_get(kv, i as int);
                        }
                        let t = (
                            self.entries[i].0.0.clone(),
                            self.entries[i].0.1.clone(),
                            self.entries[i].1.version.clone(),
                            v,
                            clone_locations(&self.entries[i].1.locations),
                        );
                        r.push(t);
                        proof {
                            assert forall|j: int|
                                0 <= j < sel_model(r@).len() implies #[trigger] sel_model(r@)[j]
                                == (if j < pre.len() {
                                pre[j]
                            } else {
                                sel_model(r@)[pre.len() as int]
                            }) by {
                                assert(sel_model(r@)[j] == (r@[j].0@, r@[j].1@, r@[j].2@, r@[
                                    j
                                ].3@, r@[j].4.deep_view()));
                                if j < pre.len() {
                                    assert(pre[j] == (r@[j].0@, r@[j].1@, r@[j].2@, r@[j].3@,
                                    r@[j].4.deep_view()));
                                }
                            }
                            assert(sel_model(r@)[pre.len() as int] == (r@[pre.len() as int].0@,
                            r@[pre.len() as int].1@, r@[pre.len() as int].2@, r@[
                                pre.len() as int
                            ].3@, r@[pre.len() as int].4.deep_view()));
                            assert(r@[pre.len() as int].4.deep_view() =~= kv[
                                i as int
                            ].1.locations);
                            assert forall|l: int|
                                0 <= l < i + 1 && (#[trigger] kv[l]).1.is_selected
                                    && spec_current_update_version(kv[l].1) is Some implies
                                exists|j: int|
                                    0 <= j < sel_model(r@).len() && ((#[trigger] sel_model(
                                        r@,
                                    )[j]).0, sel_model(r@)[j].1) == kv[l].0 by {
                                if l < i {
                                    let j0 = choose|j: int|
                                        0 <= j < pre.len() && ((#[trigger] pre[j]).0,
                                        pre[j].1) == kv[l].0;
                                    assert((sel_model(r@)[j0].0, sel_model(r@)[j0].1) == kv[
                                        l
                                    ].0);
                                } else {
                                    assert((sel_model(r@)[pre.len() as int].0, sel_model(r@)[
                                        pre.len() as int
                                    ].1) == kv[l].0);
                                }
                            }
                        }
                    },
                    None => {},
                }
            }
            i = i + 1;
        }
        proof {
            assert forall|k: (Seq<char>, Seq<char>)| #[trigger]
                self@.dom().contains(k) && self@[k].is_selected && spec_current_update_version(
                self@[k],
            ) is Some implies exists|i2: int|
                0 <= i2 < sel_model(r@).len() && ((#[trigger] sel_model(r@)[i2]).0, sel_model(
                    r@,
                )[i2].1) == k by {
                let l0 = choose|l: int| 0 <= l < kv.len() && (#[trigger] kv[l]).0 == k;
                lemma_pairs_to_map_get(kv, l0);
            }
        }
        r
    }
}

} // verus!
