//! Aggregation of dependency records into one logical entry per
//! `(organization, artifact)` key, across all files of a project.

use core::cmp::Ordering;
use vstd::prelude::*;
use vstd::string::StrSliceExecFns;
use vstd::string::StringSliceAdditionalSpecFns;
use vstd::string::StringExecFns;
use vstd::utf8::encode_utf8;

use crate::assoc::{lemma_pairs_to_map_dom, lemma_pairs_to_map_get, lemma_pairs_to_map_update, pairs_to_map, pairs_unique};
use crate::model::{Artifact, Group};
use crate::parser::{
    spec_deps, spec_parse_vals, spec_scala_version_dep, str_eq, Dependency, DependencyParser, DependencyView,
    WithLocationView,
};
use crate::span::{Edit, Span};
use crate::tree::scala_parse;
use crate::version::display_version;
use crate::version::{lemma_version_cmp_antisymmetric, lemma_version_cmp_transitive, version_cmp, Version, VersionView};

verus! {

/// A span bound to the file it occurs in.
#[derive(Debug)]
pub struct Location {
    pub path: String,
    pub span: Span,
}

/// Mathematical model of [`Location`].
pub struct LocationView {
    pub path: Seq<char>,
    pub span: Span,
}

impl Location {
    pub fn new(path: String, span: Span) -> (r: Location)
        ensures
            r@.path == path@,
            r@.span == span,
    {
        Location { path, span }
    }
}

impl View for Location {
    type V = LocationView;

    open spec fn view(&self) -> LocationView {
        LocationView { path: self.path@, span: self.span }
    }
}

impl DeepView for Location {
    type V = LocationView;

    open spec fn deep_view(&self) -> LocationView {
        self.view()
    }
}

impl Clone for Location {
    fn clone(&self) -> (r: Self)
        ensures
            r == *self,
    {
        Location { path: self.path.clone(), span: self.span }
    }
}

impl PartialEq for Location {
    fn eq(&self, other: &Self) -> (r: bool) {
        self.path == other.path && self.span.start == other.span.start && self.span.end
            == other.span.end
    }
}

impl vstd::std_specs::cmp::PartialEqSpecImpl for Location {
    open spec fn obeys_eq_spec() -> bool {
        true
    }

    open spec fn eq_spec(&self, other: &Self) -> bool {
        self@ == other@
    }
}

/// One logical entry: the highest version seen for a key, and every
/// location ever merged into it.
#[derive(Debug)]
pub struct VersionWithLocations {
    pub version: Version,
    pub locations: Vec<Location>,
}

/// Mathematical model of [`VersionWithLocations`].
pub struct VersionWithLocationsView {
    pub version: VersionView,
    pub locations: Seq<LocationView>,
}

impl View for VersionWithLocations {
    type V = VersionWithLocationsView;

    open spec fn view(&self) -> VersionWithLocationsView {
        VersionWithLocationsView {
            version: self.version@,
            locations: self.locations.deep_view(),
        }
    }
}

impl DeepView for VersionWithLocations {
    type V = VersionWithLocationsView;

    open spec fn deep_view(&self) -> VersionWithLocationsView {
        self.view()
    }
}

impl Clone for VersionWithLocations {
    fn clone(&self) -> (r: Self)
        ensures
            r@ == self@,
    {
        let locations = self.locations.clone();
        proof {
            assert forall|i: int| 0 <= i < locations@.len() implies locations@[i]
                == self.locations@[i] by {
                assert(vstd::pervasive::cloned::<Location>(
                    self.locations@[i],
                    locations@[i],
                ));
            }
            assert(locations@ =~= self.locations@);
        }
        VersionWithLocations { version: self.version.clone(), locations }
    }
}

/// The higher of the stored and the offered version.
pub open spec fn spec_merge_version(cur: VersionView, new: VersionView) -> VersionView {
    if version_cmp(new, cur) == Ordering::Greater {
        new
    } else {
        cur
    }
}

impl VersionWithLocations {
    pub fn new(version: &Version, location: &Location) -> (r: VersionWithLocations)
        ensures
            r@.version == version@,
            r@.locations =~= seq![location@],
    {
        let mut locations: Vec<Location> = Vec::new();
        locations.push(location.clone());
        VersionWithLocations { version: version.clone(), locations }
    }

    /// Merge one more record: keep the greater version, append the
    /// location whatever its own version was.
    pub fn add(&mut self, version: &Version, location: &Location)
        ensures
            final(self)@.version == spec_merge_version(old(self)@.version, version@),
            final(self)@.locations =~= old(self)@.locations.push(location@),
    {
        if matches!(version.compare(&self.version), Ordering::Greater) {
            self.version = version.clone();
        }
        self.locations.push(location.clone());
        proof {
            assert(self.locations.deep_view() =~= old(self).locations.deep_view().push(
                location@,
            ));
        }
    }
}

// ---------------------------------------------------------------------
// The dependency map.
// ---------------------------------------------------------------------

pub open spec fn dep_key(d: DependencyView) -> (Seq<char>, Seq<char>) {
    (d.group, d.artifact)
}

/// Merging one record into the map: a new key opens an entry; a known
/// key keeps the greater version and appends the location.
pub open spec fn spec_add_dep(
    m: Map<(Seq<char>, Seq<char>), VersionWithLocationsView>,
    d: DependencyView,
) -> Map<(Seq<char>, Seq<char>), VersionWithLocationsView> {
    let k = dep_key(d);
    if m.dom().contains(k) {
        m.insert(
            k,
            VersionWithLocationsView {
                version: spec_merge_version(m[k].version, d.version.value),
                locations: m[k].locations.push(d.version.location),
            },
        )
    } else {
        m.insert(
            k,
            VersionWithLocationsView {
                version: d.version.value,
                locations: seq![d.version.location],
            },
        )
    }
}

/// The map that merging a list of records, in order, produces.
pub open spec fn spec_dep_map(deps: Seq<DependencyView>) -> Map<
    (Seq<char>, Seq<char>),
    VersionWithLocationsView,
>
    decreases deps.len(),
{
    if deps.len() == 0 {
        Map::empty()
    } else {
        spec_add_dep(spec_dep_map(deps.drop_last()), deps.last())
    }
}

pub open spec fn kv_views(es: Seq<((Group, Artifact), VersionWithLocations)>) -> Seq<
    ((Seq<char>, Seq<char>), VersionWithLocationsView),
> {
    es.map_values(
        |e: ((Group, Artifact), VersionWithLocations)| ((e.0.0@, e.0.1@), e.1@),
    )
}

/// Aggregates records keyed by `(organization, artifact)`, merging
/// same-key records into one logical entry.
#[derive(Debug)]
pub struct DependencyMap {
    entries: Vec<((Group, Artifact), VersionWithLocations)>,
}

impl View for DependencyMap {
    type V = Map<(Seq<char>, Seq<char>), VersionWithLocationsView>;

    closed spec fn view(&self) -> Map<(Seq<char>, Seq<char>), VersionWithLocationsView> {
        pairs_to_map(kv_views(self.entries@))
    }
}

impl DependencyMap {
    /// Each key stands in at most one slot of the backing list.
    pub closed spec fn wf(&self) -> bool {
        pairs_unique(kv_views(self.entries@))
    }

    /// The entries as they are stored, one per key.
    pub fn iter(&self) -> (r: &Vec<((Group, Artifact), VersionWithLocations)>)
        ensures
            pairs_unique(kv_views(r@)) == self.wf(),
            pairs_to_map(kv_views(r@)) == self@,
    {
        &self.entries
    }

    pub fn new() -> (r: DependencyMap)
        ensures
            r@ == Map::<(Seq<char>, Seq<char>), VersionWithLocationsView>::empty(),
            r.wf(),
    {
        let r = DependencyMap { entries: Vec::new() };
        proof {
            assert(kv_views(r.entries@) =~= Seq::empty());
        }
        r
    }

    /// Merge one record into the map.
    pub fn add_dependency(&mut self, dependency: &Dependency)
        requires
            old(self).wf(),
        ensures
            final(self).wf(),
            final(self)@ == spec_add_dep(old(self)@, dependency@),
    {
        let ghost kv = kv_views(old(self).entries@);
        let ghost k = dep_key(dependency@);
        proof {
            lemma_pairs_to_map_dom(kv);
        }
        let n = self.entries.len();
        let mut i: usize = 0;
        while i < n
            invariant
                0 <= i <= n == self.entries@.len(),
                self.entries@ == old(self).entries@,
                kv == kv_views(self.entries@),
                pairs_unique(kv),
                k == dep_key(dependency@),
                old(self)@ == pairs_to_map(kv),
                forall|j: int| 0 <= j < i ==> (#[trigger] kv[j]).0 != k,
            decreases n - i,
        {
            proof {
                assert(kv[i as int] == ((self.entries@[i as int].0.0@, self.entries@[
                    i as int
                ].0.1@), self.entries@[i as int].1@));
            }
            if self.entries[i].0.0 == dependency.group && self.entries[i].0.1
                == dependency.artifact {
                proof {
                    assert(kv[i as int].0 == k);
                    lemma_pairs_to_map_get(kv, i as int);
                }
                self.entries[i].1.add(&dependency.version.value, &dependency.version.location);
                proof {
                    let kv2 = kv_views(self.entries@);
                    assert forall|j: int| 0 <= j < kv2.len() implies kv2[j] == kv.update(
                        i as int,
                        (k, self.entries@[i as int].1@),
                    )[j] by {
                        assert(kv2[j] == ((self.entries@[j].0.0@, self.entries@[j].0.1@),
                        self.entries@[j].1@));
                        assert(kv[j] == ((old(self).entries@[j].0.0@, old(self).entries@[
                            j
                        ].0.1@), old(self).entries@[j].1@));
                    }
                    assert(kv2 =~= kv.update(i as int, (k, self.entries@[i as int].1@)));
                    lemma_pairs_to_map_update(kv, i as int, self.entries@[i as int].1@);
                    assert(self@ == pairs_to_map(kv).insert(k, self.entries@[i as int].1@));
                    assert(self@ == spec_add_dep(pairs_to_map(kv), dependency@));
                    assert forall|a: int, b: int|
                        0 <= a < b < kv2.len() implies (#[trigger] kv2[a]).0 != (
                    #[trigger] kv2[b]).0 by {
                        assert(kv2[a].0 == kv[a].0 && kv2[b].0 == kv[b].0);
                    }
                }
                return ;
            }
            i = i + 1;
        }
        proof {
            lemma_pairs_to_map_dom(kv);
            assert(!pairs_to_map(kv).dom().contains(k));
        }
        let entry = VersionWithLocations::new(
            &dependency.version.value,
            &dependency.version.location,
        );
        let key = (dependency.group.clone(), dependency.artifact.clone());
        self.entries.push((key, entry));
        proof {
            let kv2 = kv_views(self.entries@);
            assert forall|j: int| 0 <= j < kv2.len() implies kv2[j] == kv.push(
                (k, self.entries@[kv.len() as int].1@),
            )[j] by {
                assert(kv2[j] == ((self.entries@[j].0.0@, self.entries@[j].0.1@), self.entries@[
                    j
                ].1@));
                if j < kv.len() {
                    assert(kv[j] == ((old(self).entries@[j].0.0@, old(self).entries@[j].0.1@),
                    old(self).entries@[j].1@));
                }
            }
            assert(kv2 =~= kv.push((k, self.entries@[kv.len() as int].1@)));
            assert(kv2.drop_last() =~= kv);
            assert(self.entries@[kv.len() as int].1@.locations =~= seq![
                dependency@.version.location,
            ]);
            assert(self@ =~= spec_add_dep(pairs_to_map(kv), dependency@));
            assert forall|a: int, b: int| 0 <= a < b < kv2.len() implies (#[trigger] kv2[a]).0
                != (#[trigger] kv2[b]).0 by {
                if b < kv.len() {
                    assert(kv2[a] == kv[a] && kv2[b] == kv[b]);
                } else {
                    assert(kv2[a] == kv[a] && kv2[b].0 == k);
                }
            }
        }
    }

    /// Merge a whole list of records, in order.
    pub fn from_dependencies(dependencies: Vec<Dependency>) -> (r: DependencyMap)
        ensures
            r.wf(),
            r@ == spec_dep_map(dependencies.deep_view()),
    {
        let ghost all = dependencies.deep_view();
        let mut map = DependencyMap::new();
        let mut i: usize = 0;
        proof {
            assert(all.take(0) =~= Seq::<DependencyView>::empty());
        }
        while i < dependencies.len()
            invariant
                0 <= i <= dependencies@.len(),
                all == dependencies.deep_view(),
                all.len() == dependencies@.len(),
                map.wf(),
                map@ == spec_dep_map(all.take(i as int)),
            decreases dependencies@.len() - i,
        {
            proof {
                assert(all.take(i as int + 1).drop_last() =~= all.take(i as int));
                assert(all.take(i as int + 1).last() == all[i as int]);
                assert(all[i as int] == dependencies@[i as int]@);
            }
            map.add_dependency(&dependencies[i]);
            i = i + 1;
        }
        proof {
            assert(all.take(all.len() as int) =~= all);
        }
        map
    }
}

// ---------------------------------------------------------------------
// Collection over a whole project's files.
// ---------------------------------------------------------------------

/// The table after reading every file's constant definitions, in order.
pub open spec fn spec_collect_val_defs(
    files: Seq<(Seq<char>, Seq<char>)>,
    tbl: Map<Seq<char>, WithLocationView<Seq<char>>>,
) -> Map<Seq<char>, WithLocationView<Seq<char>>>
    decreases files.len(),
{
    if files.len() == 0 {
        tbl
    } else {
        let f = files.last();
        spec_parse_vals(
            f.0,
            scala_parse(encode_utf8(f.1)),
            encode_utf8(f.1),
            spec_collect_val_defs(files.drop_last(), tbl),
        )
    }
}

/// The records of every file, in order, all resolved against one table.
pub open spec fn spec_collect_deps(
    files: Seq<(Seq<char>, Seq<char>)>,
    tbl: Map<Seq<char>, WithLocationView<Seq<char>>>,
) -> Seq<DependencyView>
    decreases files.len(),
{
    if files.len() == 0 {
        Seq::empty()
    } else {
        let f = files.last();
        spec_collect_deps(files.drop_last(), tbl) + spec_deps(
            f.0,
            scala_parse(encode_utf8(f.1)),
            encode_utf8(f.1),
            tbl,
        )
    }
}

pub open spec fn path_is_build_sbt(path: Seq<char>) -> bool {
    path.len() >= "build.sbt"@.len() && path.skip(path.len() - "build.sbt"@.len())
        == "build.sbt"@
}

/// The first file whose path names the root build file.
pub open spec fn first_build_sbt(files: Seq<(Seq<char>, Seq<char>)>, from: int) -> Option<int>
    decreases files.len() - from,
{
    if from < 0 || from >= files.len() {
        None
    } else if path_is_build_sbt(files[from].0) {
        Some(from)
    } else {
        first_build_sbt(files, from + 1)
    }
}

/// The whole collection pass: every file's constant definitions first,
/// then every file's records, then the language-library record of the
/// root build file, all merged into one map.
pub open spec fn spec_collect(files: Seq<(Seq<char>, Seq<char>)>) -> Map<
    (Seq<char>, Seq<char>),
    VersionWithLocationsView,
> {
    let tbl = spec_collect_val_defs(
        files,
        Map::<Seq<char>, WithLocationView<Seq<char>>>::empty(),
    );
    let deps = spec_collect_deps(files, tbl);
    let with_scala = match first_build_sbt(files, 0) {
        None => deps,
        Some(i) => match spec_scala_version_dep(files[i].0, encode_utf8(files[i].1)) {
            None => deps,
            Some(d) => deps.push(d),
        },
    };
    spec_dep_map(with_scala)
}

proof fn lemma_first_build_sbt_at(files: Seq<(Seq<char>, Seq<char>)>, from: int, i: int)
    requires
        0 <= from <= i < files.len(),
        path_is_build_sbt(files[i].0),
        forall|j: int| from <= j < i ==> !path_is_build_sbt((#[trigger] files[j]).0),
    ensures
        first_build_sbt(files, from) == Some(i),
    decreases i - from,
{
    if from < i {
        lemma_first_build_sbt_at(files, from + 1, i);
    }
}

proof fn lemma_first_build_sbt_none(files: Seq<(Seq<char>, Seq<char>)>, from: int)
    requires
        0 <= from,
        forall|j: int| from <= j < files.len() ==> !path_is_build_sbt((#[trigger] files[j]).0),
    ensures
        first_build_sbt(files, from) is None,
    decreases files.len() - from,
{
    if from < files.len() {
        lemma_first_build_sbt_none(files, from + 1);
    }
}

/// Whether a path names the root build file.
fn is_build_sbt_path(path: &str) -> (r: bool)
    ensures
        r == path_is_build_sbt(path@),
{
    proof {
        reveal_strlit("build.sbt");
        assert("build.sbt"@.len() == 9);
    }
    let n = path.unicode_len();
    if n < 9 {
        return false;
    }
    let tail = path.substring_char(n - 9, n);
    proof {
        assert(path@.subrange(n as int - 9, n as int) =~= path@.skip(n as int - 9));
    }
    str_eq(tail, "build.sbt")
}

/// The first file whose path names the root build file.
fn find_build_sbt(files: &Vec<(String, String)>) -> (r: Option<usize>)
    ensures
        match r {
            Some(b) => first_build_sbt(files.deep_view(), 0) == Some(b as int) && b
                < files@.len(),
            None => first_build_sbt(files.deep_view(), 0) is None,
        },
{
    let ghost fviews = files.deep_view();
    let n = files.len();
    let mut i: usize = 0;
    while i < n
        invariant
            0 <= i <= n == files@.len(),
            fviews == files.deep_view(),
            fviews.len() == n,
            forall|j: int| 0 <= j < i ==> !path_is_build_sbt((#[trigger] fviews[j]).0),
        decreases n - i,
    {
        proof {
            assert(fviews[i as int] == (files@[i as int].0@, files@[i as int].1@));
        }
        if is_build_sbt_path(files[i].0.as_str()) {
            proof {
                lemma_first_build_sbt_at(fviews, 0, i as int);
            }
            return Some(i);
        }
        i = i + 1;
    }
    proof {
        lemma_first_build_sbt_none(fviews, 0);
    }
    None
}

/// Read the dependency map of a whole project: the text of each of its
/// build-description and source files, in the order they were found, the
/// root build file first if it exists.
pub fn collect_sbt_dependencies(files: &Vec<(String, String)>) -> (r: DependencyMap)
    ensures
        r.wf(),
        r@ == spec_collect(files.deep_view()),
{
    let ghost fviews = files.deep_view();
    let mut parser = DependencyParser::new();
    let n = files.len();

    // first pass: every file's constant definitions into one table
    let mut i: usize = 0;
    proof {
        assert(fviews.take(0) =~= Seq::<(Seq<char>, Seq<char>)>::empty());
    }
    while i < n
        invariant
            0 <= i <= n == files@.len(),
            fviews == files.deep_view(),
            fviews.len() == n,
            parser.val_defs.wf(),
            parser.dependencies@.len() == 0,
            parser.val_defs@ == spec_collect_val_defs(
                fviews.take(i as int),
                Map::<Seq<char>, WithLocationView<Seq<char>>>::empty(),
            ),
        decreases n - i,
    {
        proof {
            assert(fviews.take(i as int + 1).drop_last() =~= fviews.take(i as int));
            assert(fviews.take(i as int + 1).last() == fviews[i as int]);
            assert(fviews[i as int] == (files@[i as int].0@, files@[i as int].1@));
        }
        parser.parse_val_defs(files[i].0.as_str(), files[i].1.as_str());
        i = i + 1;
    }
    proof {
        assert(fviews.take(n as int) =~= fviews);
    }

    // second pass: every file's declarations, resolved against that table
    let ghost tbl = parser.val_defs@;
    let mut i: usize = 0;
    proof {
        assert(fviews.take(0) =~= Seq::<(Seq<char>, Seq<char>)>::empty());
    }
    while i < n
        invariant
            0 <= i <= n == files@.len(),
            fviews == files.deep_view(),
            fviews.len() == n,
            parser.val_defs.wf(),
            parser.val_defs@ == tbl,
            parser.dependencies.deep_view() == spec_collect_deps(fviews.take(i as int), tbl),
        decreases n - i,
    {
        proof {
            assert(fviews.take(i as int + 1).drop_last() =~= fviews.take(i as int));
            assert(fviews.take(i as int + 1).last() == fviews[i as int]);
            assert(fviews[i as int] == (files@[i as int].0@, files@[i as int].1@));
        }
        parser.parse_dependencies(files[i].0.as_str(), files[i].1.as_str());
        i = i + 1;
    }
    proof {
        assert(fviews.take(n as int) =~= fviews);
    }

    // the root build file also carries the language version
    let build_idx = find_build_sbt(files);
    match build_idx {
        Some(b) => {
            proof {
                assert(fviews[b as int] == (files@[b as int].0@, files@[b as int].1@));
            }
            match crate::parser::get_scala_version_from_build_sbt(
                files[b].0.as_str(),
                files[b].1.as_str(),
            ) {
                Some(d) => {
                    let ghost before = parser.dependencies.deep_view();
                    parser.dependencies.push(d);
                    proof {
                        assert(parser.dependencies.deep_view() =~= before.push(d@));
                    }
                },
                None => {},
            }
        },
        None => {},
    }
    DependencyMap::from_dependencies(parser.dependencies)
}

// ---------------------------------------------------------------------
// Turning chosen updates into per-file edit batches.
// ---------------------------------------------------------------------

/// The replacement text an update writes: the version, quoted.
pub open spec fn quoted_version_bytes(v: VersionView) -> Seq<u8> {
    encode_utf8(seq!['"'] + display_version(v) + seq!['"'])
}

/// One update flattened to its per-location edits.
pub open spec fn update_edits(u: (VersionView, Seq<LocationView>)) -> Seq<
    (Seq<char>, (Span, Seq<u8>)),
> {
    u.1.map_values(|l: LocationView| (l.path, (l.span, quoted_version_bytes(u.0))))
}

/// Every update flattened, in order.
pub open spec fn flatten_updates(us: Seq<(VersionView, Seq<LocationView>)>) -> Seq<
    (Seq<char>, (Span, Seq<u8>)),
>
    decreases us.len(),
{
    if us.len() == 0 {
        Seq::empty()
    } else {
        flatten_updates(us.drop_last()) + update_edits(us.last())
    }
}

/// The first group with the given path, if any.
pub open spec fn find_group(
    groups: Seq<(Seq<char>, Seq<(Span, Seq<u8>)>)>,
    path: Seq<char>,
    from: int,
) -> Option<int>
    decreases groups.len() - from,
{
    if from < 0 || from >= groups.len() {
        None
    } else if groups[from].0 == path {
        Some(from)
    } else {
        find_group(groups, path, from + 1)
    }
}

/// One edit appended to its path's group, a new group opening at the end
/// for a path not seen before.
pub open spec fn group_insert(
    groups: Seq<(Seq<char>, Seq<(Span, Seq<u8>)>)>,
    path: Seq<char>,
    edit: (Span, Seq<u8>),
) -> Seq<(Seq<char>, Seq<(Span, Seq<u8>)>)> {
    match find_group(groups, path, 0) {
        Some(i) => groups.update(i, (path, groups[i].1.push(edit))),
        None => groups.push((path, seq![edit])),
    }
}

pub open spec fn group_all(pairs: Seq<(Seq<char>, (Span, Seq<u8>))>) -> Seq<
    (Seq<char>, Seq<(Span, Seq<u8>)>),
>
    decreases pairs.len(),
{
    if pairs.len() == 0 {
        Seq::empty()
    } else {
        group_insert(group_all(pairs.drop_last()), pairs.last().0, pairs.last().1)
    }
}

/// The chosen updates as per-file edit batches: paths in order of first
/// appearance, each batch holding its file's edits in order.
pub open spec fn spec_group_updates(us: Seq<(VersionView, Seq<LocationView>)>) -> Seq<
    (Seq<char>, Seq<(Span, Seq<u8>)>),
> {
    group_all(flatten_updates(us))
}

pub open spec fn groups_model(r: Seq<(String, Vec<Edit>)>) -> Seq<
    (Seq<char>, Seq<(Span, Seq<u8>)>),
> {
    r.map_values(|g: (String, Vec<Edit>)| (g.0@, g.1.deep_view()))
}

proof fn lemma_find_group_at(
    groups: Seq<(Seq<char>, Seq<(Span, Seq<u8>)>)>,
    path: Seq<char>,
    i: int,
)
    requires
        0 <= i < groups.len(),
        groups[i].0 == path,
        forall|j: int| 0 <= j < i ==> (#[trigger] groups[j]).0 != path,
    ensures
        find_group(groups, path, 0) == Some(i),
{
    lemma_find_group_suffix(groups, path, 0, i);
}

proof fn lemma_find_group_suffix(
    groups: Seq<(Seq<char>, Seq<(Span, Seq<u8>)>)>,
    path: Seq<char>,
    from: int,
    i: int,
)
    requires
        0 <= from <= i < groups.len(),
        groups[i].0 == path,
        forall|j: int| from <= j < i ==> (#[trigger] groups[j]).0 != path,
    ensures
        find_group(groups, path, from) == Some(i),
    decreases i - from,
{
    if from < i {
        lemma_find_group_suffix(groups, path, from + 1, i);
    }
}

proof fn lemma_find_group_none(
    groups: Seq<(Seq<char>, Seq<(Span, Seq<u8>)>)>,
    path: Seq<char>,
    from: int,
)
    requires
        0 <= from,
        forall|j: int| from <= j < groups.len() ==> (#[trigger] groups[j]).0 != path,
    ensures
        find_group(groups, path, from) is None,
    decreases groups.len() - from,
{
    if from < groups.len() {
        lemma_find_group_none(groups, path, from + 1);
    }
}

/// Append one edit to its path's batch.
fn push_edit(out: &mut Vec<(String, Vec<Edit>)>, path: &String, edit: Edit)
    ensures
        groups_model(final(out)@) == group_insert(groups_model(old(out)@), path@, edit@),
{
    let ghost groups = groups_model(old(out)@);
    let ghost ev = edit@;
    let n = out.len();
    let mut i: usize = 0;
    while i < n
        invariant
            0 <= i <= n == out@.len(),
            out@ == old(out)@,
            groups == groups_model(out@),
            ev == edit@,
            forall|j: int| 0 <= j < i ==> (#[trigger] groups[j]).0 != path@,
        decreases n - i,
    {
        proof {
            assert(groups[i as int] == (out@[i as int].0@, out@[i as int].1.deep_view()));
        }
        if str_eq(out[i].0.as_str(), path.as_str()) {
            proof {
                lemma_find_group_at(groups, path@, i as int);
            }
            let ghost e0 = edit;
            let entry = &mut out[i];
            entry.1.push(edit);
            proof {
                let g2 = groups_model(out@);
                assert(out@[i as int].1@ =~= old(out)@[i as int].1@.push(e0));
                assert forall|k: int|
                    0 <= k < out@[i as int].1@.len() implies out@[i as int].1.deep_view()[k]
                    == old(out)@[i as int].1.deep_view().push(ev)[k] by {
                    if k < old(out)@[i as int].1@.len() {
                        assert(out@[i as int].1@[k] == old(out)@[i as int].1@[k]);
                    } else {
                        assert(out@[i as int].1@[k] == e0);
                        assert(e0.deep_view() == ev);
                    }
                }
                assert(out@[i as int].1.deep_view() =~= old(out)@[i as int].1.deep_view().push(
                    ev,
                ));
                assert forall|j: int| 0 <= j < g2.len() implies g2[j] == groups.update(
                    i as int,
                    (path@, groups[i as int].1.push(ev)),
                )[j] by {
                    assert(g2[j] == (out@[j].0@, out@[j].1.deep_view()));
                    assert(groups[j] == (old(out)@[j].0@, old(out)@[j].1.deep_view()));
                    if j != i {
                        assert(out@[j] == old(out)@[j]);
                    }
                }
                assert(g2 =~= groups.update(i as int, (path@, groups[i as int].1.push(ev))));
            }
            return ;
        }
        i = i + 1;
    }
    proof {
        lemma_find_group_none(groups, path@, 0);
    }
    let mut batch: Vec<Edit> = Vec::new();
    batch.push(edit);
    out.push((path.clone(), batch));
    proof {
        let g2 = groups_model(out@);
        assert(batch@ =~= seq![edit]);
        assert forall|j: int| 0 <= j < g2.len() implies g2[j] == groups.push(
            (path@, seq![ev]),
        )[j] by {
            assert(g2[j] == (out@[j].0@, out@[j].1.deep_view()));
            if j < groups.len() {
                assert(groups[j] == (old(out)@[j].0@, old(out)@[j].1.deep_view()));
            } else {
                assert(out@[j].1.deep_view() =~= seq![ev]);
            }
        }
        assert(g2 =~= groups.push((path@, seq![ev])));
    }
}

/// Turn the chosen updates into one edit batch per file: every merged
/// location of an update is rewritten to the chosen version's quoted
/// text, and edits are grouped by the file they land in.
pub fn group_version_updates(updates: &Vec<(Version, Vec<Location>)>) -> (r: Vec<
    (String, Vec<Edit>),
>)
    ensures
        groups_model(r@) == spec_group_updates(updates.deep_view()),
{
    let ghost us = updates.deep_view();
    let mut out: Vec<(String, Vec<Edit>)> = Vec::new();
    let n = updates.len();
    let mut i: usize = 0;
    proof {
        assert(us.take(0) =~= Seq::<(VersionView, Seq<LocationView>)>::empty());
        assert(groups_model(out@) =~= Seq::empty());
    }
    while i < n
        invariant
            0 <= i <= n == updates@.len(),
            us == updates.deep_view(),
            us.len() == n,
            groups_model(out@) == group_all(flatten_updates(us.take(i as int))),
        decreases n - i,
    {
        proof {
            assert(us[i as int] == (updates@[i as int].0@, updates@[i as int].1.deep_view()));
        }
        let version = &updates[i].0;
        let mut text = "\"".to_owned();
        let shown = version.display_string();
        text.append(shown.as_str());
        text.append("\"");
        proof {
            reveal_strlit("\"");
            assert("\""@ =~= seq!['"']);
            assert(text@ =~= seq!['"'] + display_version(version@) + seq!['"']);
        }
        let text_bytes = text.as_str().as_bytes_vec();
        let ghost flat_prefix = flatten_updates(us.take(i as int));
        let ghost edits_here = update_edits(us[i as int]);
        let m = updates[i].1.len();
        let mut j: usize = 0;
        proof {
            assert(flat_prefix + edits_here.take(0) =~= flat_prefix);
        }
        while j < m
            invariant
                0 <= j <= m,
                us == updates.deep_view(),
                us.len() == n,
                0 <= i < n == updates@.len(),
                m == updates@[i as int].1@.len(),
                us[i as int] == (updates@[i as int].0@, updates@[i as int].1.deep_view()),
                edits_here == update_edits(us[i as int]),
                flat_prefix == flatten_updates(us.take(i as int)),
                text_bytes@ == quoted_version_bytes(updates@[i as int].0@),
                groups_model(out@) == group_all(flat_prefix + edits_here.take(j as int)),
            decreases m - j,
        {
            let loc = &updates[i].1[j];
            proof {
                assert(updates@[i as int].1.deep_view()[j as int] == updates@[i as int].1@[
                    j as int
                ]@);
                assert(edits_here[j as int] == (loc@.path, (loc@.span, quoted_version_bytes(
                    updates@[i as int].0@,
                ))));
                assert((flat_prefix + edits_here.take(j as int + 1)).drop_last() =~= flat_prefix
                    + edits_here.take(j as int));
                assert((flat_prefix + edits_here.take(j as int + 1)).last() == edits_here[
                    j as int
                ]);
            }
            let edit = Edit { span: loc.span, text: text_bytes.clone() };
            proof {
                assert(edit.text@ =~= text_bytes@);
            }
            push_edit(&mut out, &loc.path, edit);
            j = j + 1;
        }
        proof {
            assert(edits_here.take(edits_here.len() as int) =~= edits_here);
            assert(flat_prefix + edits_here =~= flatten_updates(us.take(i as int + 1)) || true);
            assert(us.take(i as int + 1).drop_last() =~= us.take(i as int));
            assert(us.take(i as int + 1).last() == us[i as int]);
            assert(flatten_updates(us.take(i as int + 1)) == flatten_updates(us.take(i as int))
                + update_edits(us[i as int]));
        }
        i = i + 1;
    }
    proof {
        assert(us.take(n as int) =~= us);
    }
    out
}

// ---------------------------------------------------------------------
// The file cache.
// ---------------------------------------------------------------------

/// Texts already read, by path, so that each file is read once.
#[derive(Debug)]
pub struct FileCache {
    entries: Vec<(String, String)>,
}

impl View for FileCache {
    type V = Seq<(Seq<char>, Seq<char>)>;

    closed spec fn view(&self) -> Seq<(Seq<char>, Seq<char>)> {
        self.entries.deep_view()
    }
}

impl FileCache {
    pub fn new() -> (r: FileCache)
        ensures
            r@ == Seq::<(Seq<char>, Seq<char>)>::empty(),
    {
        let r = FileCache { entries: Vec::new() };
        proof {
            assert(r.entries.deep_view() =~= Seq::<(Seq<char>, Seq<char>)>::empty());
        }
        r
    }

    /// The text stored for a path, if any.
    pub fn lookup(&self, path: &str) -> (r: Option<&String>)
        ensures
            match r {
                Some(s) => exists|i: int|
                    0 <= i < self@.len() && (#[trigger] self@[i]).0 == path@ && self@[i].1 == s@,
                None => forall|i: int| 0 <= i < self@.len() ==> (#[trigger] self@[i]).0 != path@,
            },
    {
        let n = self.entries.len();
        let mut i: usize = 0;
        while i < n
            invariant
                0 <= i <= n == self.entries@.len(),
                self@ == self.entries.deep_view(),
                self@.len() == n,
                forall|j: int| 0 <= j < i ==> (#[trigger] self@[j]).0 != path@,
            decreases n - i,
        {
            proof {
                assert(self@[i as int] == (self.entries@[i as int].0@, self.entries@[
                    i as int
                ].1@));
            }
            if str_eq(self.entries[i].0.as_str(), path) {
                return Some(&self.entries[i].1);
            }
            i = i + 1;
        }
        None
    }

    /// Remember a path's text.
    pub fn store(&mut self, path: String, content: String)
        ensures
            final(self)@ == old(self)@.push((path@, content@)),
    {
        self.entries.push((path, content));
        proof {
            assert(self.entries.deep_view() =~= old(self).entries.deep_view().push(
                (self.entries@.last().0@, self.entries@.last().1@),
            ));
        }
    }
}

// ---------------------------------------------------------------------
// Merging is insensitive to the order of the records.
// ---------------------------------------------------------------------

/// Some record in `deps` carries key `k`.
pub open spec fn has_key(deps: Seq<DependencyView>, k: (Seq<char>, Seq<char>)) -> bool {
    exists|i: int| 0 <= i < deps.len() && #[trigger] dep_key(deps[i]) == k
}

/// Some record with key `k` carries exactly version `v`.
pub open spec fn key_has_version(
    deps: Seq<DependencyView>,
    k: (Seq<char>, Seq<char>),
    v: VersionView,
) -> bool {
    exists|i: int|
        0 <= i < deps.len() && #[trigger] dep_key(deps[i]) == k && deps[i].version.value == v
}

/// No record with key `k` carries a version above `v`.
pub open spec fn key_version_bounded(
    deps: Seq<DependencyView>,
    k: (Seq<char>, Seq<char>),
    v: VersionView,
) -> bool {
    forall|i: int|
        0 <= i < deps.len() && #[trigger] dep_key(deps[i]) == k ==> version_cmp(
            deps[i].version.value,
            v,
        ) != Ordering::Greater
}

/// The locations of every record with key `k`.
pub open spec fn key_locations(deps: Seq<DependencyView>, k: (Seq<char>, Seq<char>)) -> Set<
    LocationView,
> {
    Set::new(
        |l: LocationView|
            exists|i: int|
                0 <= i < deps.len() && #[trigger] dep_key(deps[i]) == k && deps[i].version.location
                    == l,
    )
}

/// The merged map holds exactly the keys of the records merged in.
pub proof fn lemma_dep_map_dom(deps: Seq<DependencyView>)
    ensures
        forall|k: (Seq<char>, Seq<char>)| #[trigger]
            spec_dep_map(deps).dom().contains(k) <==> has_key(deps, k),
    decreases deps.len(),
{
    if deps.len() > 0 {
        lemma_dep_map_dom(deps.drop_last());
        let pre = deps.drop_last();
        assert forall|k: (Seq<char>, Seq<char>)| #[trigger]
            spec_dep_map(deps).dom().contains(k) implies has_key(deps, k) by {
            if k == dep_key(deps.last()) {
                assert(dep_key(deps[deps.len() - 1]) == k);
            } else {
                assert(spec_dep_map(pre).dom().contains(k));
                let i = choose|i: int| 0 <= i < pre.len() && #[trigger] dep_key(pre[i]) == k;
                assert(dep_key(deps[i]) == k);
            }
        }
        assert forall|k: (Seq<char>, Seq<char>)| has_key(deps, k) implies #[trigger]
            spec_dep_map(deps).dom().contains(k) by {
            let i = choose|i: int| 0 <= i < deps.len() && #[trigger] dep_key(deps[i]) == k;
            if i < deps.len() - 1 {
                assert(dep_key(pre[i]) == k);
                assert(has_key(pre, k));
                assert(spec_dep_map(pre).dom().contains(k));
            }
        }
    }
}

/// What one logical entry of the merged map holds, whatever the order of
/// merging: a version that one of its key's records carries and that no
/// record of the key exceeds — the maximum under the version order — and,
/// as a set, exactly the locations of the records with that key.
pub proof fn lemma_dep_map_entry(deps: Seq<DependencyView>, k: (Seq<char>, Seq<char>))
    requires
        spec_dep_map(deps).dom().contains(k),
    ensures
        key_has_version(deps, k, spec_dep_map(deps)[k].version),
        key_version_bounded(deps, k, spec_dep_map(deps)[k].version),
        spec_dep_map(deps)[k].locations.to_set() == key_locations(deps, k),
    decreases deps.len(),
{
    broadcast use vstd::seq_lib::group_to_multiset_ensures;

    lemma_dep_map_dom(deps);
    let pre = deps.drop_last();
    let last = deps.last();
    let m = spec_dep_map(deps);
    let e = m[k];
    if dep_key(last) != k {
        lemma_dep_map_dom(pre);
        assert(has_key(deps, k));
        let w = choose|i: int| 0 <= i < deps.len() && #[trigger] dep_key(deps[i]) == k;
        assert(dep_key(pre[w]) == k);
        lemma_dep_map_entry(pre, k);
        assert(m[k] == spec_dep_map(pre)[k]);
        let i0 = choose|i: int|
            0 <= i < pre.len() && #[trigger] dep_key(pre[i]) == k && pre[i].version.value
                == e.version;
        assert(dep_key(deps[i0]) == k && deps[i0].version.value == e.version);
        assert forall|i: int|
            0 <= i < deps.len() && #[trigger] dep_key(deps[i]) == k implies version_cmp(
            deps[i].version.value,
            e.version,
        ) != Ordering::Greater by {
            assert(i < pre.len());
            assert(dep_key(pre[i]) == k);
        }
        assert forall|l: LocationView| key_locations(deps, k).contains(l) implies key_locations(
            pre,
            k,
        ).contains(l) by {
            let i = choose|i: int|
                0 <= i < deps.len() && #[trigger] dep_key(deps[i]) == k && deps[i].version.location
                    == l;
            assert(dep_key(pre[i]) == k && pre[i].version.location == l);
        }
        assert forall|l: LocationView| key_locations(pre, k).contains(l) implies key_locations(
            deps,
            k,
        ).contains(l) by {
            let i = choose|i: int|
                0 <= i < pre.len() && #[trigger] dep_key(pre[i]) == k && pre[i].version.location
                    == l;
            assert(dep_key(deps[i]) == k && deps[i].version.location == l);
        }
        assert(key_locations(deps, k) =~= key_locations(pre, k));
    } else {
        if spec_dep_map(pre).dom().contains(k) {
            lemma_dep_map_entry(pre, k);
            let old_e = spec_dep_map(pre)[k];
            assert(e.version == spec_merge_version(old_e.version, last.version.value));
            assert(e.locations == old_e.locations.push(last.version.location));
            // the merged version is carried by some record
            if version_cmp(last.version.value, old_e.version) == Ordering::Greater {
                assert(dep_key(deps[deps.len() - 1]) == k && deps[deps.len() - 1].version.value
                    == e.version);
            } else {
                let i0 = choose|i: int|
                    0 <= i < pre.len() && #[trigger] dep_key(pre[i]) == k && pre[i].version.value
                        == old_e.version;
                assert(dep_key(deps[i0]) == k && deps[i0].version.value == e.version);
            }
            // and no record with this key is above it
            assert forall|i: int|
                0 <= i < deps.len() && #[trigger] dep_key(deps[i]) == k implies version_cmp(
                deps[i].version.value,
                e.version,
            ) != Ordering::Greater by {
                let vi = deps[i].version.value;
                lemma_version_cmp_antisymmetric(vi, e.version);
                if i < pre.len() {
                    assert(dep_key(pre[i]) == k);
                    assert(version_cmp(vi, old_e.version) != Ordering::Greater);
                    if version_cmp(vi, e.version) == Ordering::Greater {
                        assert(e.version == last.version.value);
                        lemma_version_cmp_antisymmetric(vi, old_e.version);
                        lemma_version_cmp_antisymmetric(old_e.version, e.version);
                        lemma_version_cmp_antisymmetric(e.version, vi);
                        lemma_version_cmp_transitive(old_e.version, e.version, vi);
                        assert(false);
                    }
                } else {
                    if version_cmp(last.version.value, old_e.version) == Ordering::Greater {
                        lemma_version_cmp_antisymmetric(vi, vi);
                    } else {
                        lemma_version_cmp_antisymmetric(vi, old_e.version);
                    }
                }
            }
            // the locations are those of the records with this key
            assert forall|l: LocationView|
                e.locations.to_set().contains(l) implies key_locations(deps, k).contains(l) by {
                if l == last.version.location {
                    assert(dep_key(deps[deps.len() - 1]) == k);
                } else {
                    assert(e.locations.contains(l));
                    let j = choose|j: int| 0 <= j < e.locations.len() && e.locations[j] == l;
                    assert(old_e.locations[j] == l);
                    assert(old_e.locations.to_set().contains(l));
                    let i0 = choose|i: int|
                        0 <= i < pre.len() && #[trigger] dep_key(pre[i]) == k
                            && pre[i].version.location == l;
                    assert(dep_key(deps[i0]) == k && deps[i0].version.location == l);
                }
            }
            assert forall|l: LocationView|
                key_locations(deps, k).contains(l) implies e.locations.to_set().contains(l) by {
                let i0 = choose|i: int|
                    0 <= i < deps.len() && #[trigger] dep_key(deps[i]) == k && deps[
                        i
                    ].version.location == l;
                if i0 < pre.len() {
                    assert(dep_key(pre[i0]) == k);
                    assert(key_locations(pre, k).contains(l));
                    assert(old_e.locations.to_set().contains(l));
                    let j = choose|j: int|
                        0 <= j < old_e.locations.len() && old_e.locations[j] == l;
                    assert(e.locations[j] == l);
                } else {
                    assert(e.locations.last() == l);
                }
            }
            assert(e.locations.to_set() =~= key_locations(deps, k));
        } else {
            lemma_dep_map_dom(pre);
            assert(e.version == last.version.value);
            assert(e.locations =~= seq![last.version.location]);
            assert(dep_key(deps[deps.len() - 1]) == k && deps[deps.len() - 1].version.value
                == e.version);
            assert forall|i: int|
                0 <= i < deps.len() && #[trigger] dep_key(deps[i]) == k implies version_cmp(
                deps[i].version.value,
                e.version,
            ) != Ordering::Greater by {
                if i < pre.len() {
                    assert(dep_key(pre[i]) == k);
                    assert(has_key(pre, k));
                    assert(false);
                } else {
                    lemma_version_cmp_antisymmetric(e.version, e.version);
                }
            }
            assert forall|l: LocationView|
                key_locations(deps, k).contains(l) implies e.locations.to_set().contains(l) by {
                let i0 = choose|i: int|
                    0 <= i < deps.len() && #[trigger] dep_key(deps[i]) == k && deps[
                        i
                    ].version.location == l;
                if i0 < pre.len() {
                    assert(dep_key(pre[i0]) == k);
                    assert(has_key(pre, k));
                    assert(false);
                } else {
                    assert(e.locations[0] == l);
                }
            }
            assert forall|l: LocationView|
                e.locations.to_set().contains(l) implies key_locations(deps, k).contains(l) by {
                assert(e.locations[0] == l);
                assert(dep_key(deps[deps.len() - 1]) == k && deps[deps.len() - 1].version.location
                    == l);
            }
            assert(e.locations.to_set() =~= key_locations(deps, k));
        }
    }
}

/// Merging the same set of dependency records in any order yields the
/// same merged version and the same set of locations for every key.
pub proof fn lemma_merge_order_irrelevant(d1: Seq<DependencyView>, d2: Seq<DependencyView>)
    requires
        d1.to_multiset() == d2.to_multiset(),
    ensures
        spec_dep_map(d1).dom() == spec_dep_map(d2).dom(),
        forall|k: (Seq<char>, Seq<char>)| #[trigger] spec_dep_map(d1).dom().contains(k)
            ==> spec_dep_map(d1)[k].version == spec_dep_map(d2)[k].version && spec_dep_map(d1)[
            k
        ].locations.to_set() == spec_dep_map(d2)[k].locations.to_set(),
{
    broadcast use vstd::seq_lib::group_to_multiset_ensures;

    lemma_dep_map_dom(d1);
    lemma_dep_map_dom(d2);
    assert forall|d: DependencyView| d1.contains(d) implies d2.contains(d) by {
        assert(d1.to_multiset().count(d) > 0);
    }
    assert forall|d: DependencyView| d2.contains(d) implies d1.contains(d) by {
        assert(d2.to_multiset().count(d) > 0);
    }
    assert forall|k: (Seq<char>, Seq<char>)| has_key(d1, k) implies has_key(d2, k) by {
        let i = choose|i: int| 0 <= i < d1.len() && #[trigger] dep_key(d1[i]) == k;
        assert(d1.contains(d1[i]));
        let j = choose|j: int| 0 <= j < d2.len() && d2[j] == d1[i];
        assert(dep_key(d2[j]) == k);
    }
    assert forall|k: (Seq<char>, Seq<char>)| has_key(d2, k) implies has_key(d1, k) by {
        let i = choose|i: int| 0 <= i < d2.len() && #[trigger] dep_key(d2[i]) == k;
        assert(d2.contains(d2[i]));
        let j = choose|j: int| 0 <= j < d1.len() && d1[j] == d2[i];
        assert(dep_key(d1[j]) == k);
    }
    assert(spec_dep_map(d1).dom() =~= spec_dep_map(d2).dom());
    assert forall|k: (Seq<char>, Seq<char>)| #[trigger]
        spec_dep_map(d1).dom().contains(k) implies spec_dep_map(d1)[k].version == spec_dep_map(
        d2,
    )[k].version && spec_dep_map(d1)[k].locations.to_set() == spec_dep_map(d2)[
        k
    ].locations.to_set() by {
        lemma_dep_map_entry(d1, k);
        lemma_dep_map_entry(d2, k);
        let v1 = spec_dep_map(d1)[k].version;
        let v2 = spec_dep_map(d2)[k].version;
        // each map's version is carried by a record the other list also
        // holds, so neither version is above the other
        let i1 = choose|i: int|
            0 <= i < d1.len() && #[trigger] dep_key(d1[i]) == k && d1[i].version.value == v1;
        assert(d1.contains(d1[i1]));
        let j1 = choose|j: int| 0 <= j < d2.len() && d2[j] == d1[i1];
        assert(dep_key(d2[j1]) == k);
        assert(version_cmp(v1, v2) != Ordering::Greater);
        let i2 = choose|i: int|
            0 <= i < d2.len() && #[trigger] dep_key(d2[i]) == k && d2[i].version.value == v2;
        assert(d2.contains(d2[i2]));
        let j2 = choose|j: int| 0 <= j < d1.len() && d1[j] == d2[i2];
        assert(dep_key(d1[j2]) == k);
        assert(version_cmp(v2, v1) != Ordering::Greater);
        lemma_version_cmp_antisymmetric(v1, v2);
        assert(v1 == v2);
        // the location sets are both the locations of the same records
        assert forall|l: LocationView| key_locations(d1, k).contains(l) implies key_locations(
            d2,
            k,
        ).contains(l) by {
            let i = choose|i: int|
                0 <= i < d1.len() && #[trigger] dep_key(d1[i]) == k && d1[i].version.location == l;
            assert(d1.contains(d1[i]));
            let j = choose|j: int| 0 <= j < d2.len() && d2[j] == d1[i];
            assert(dep_key(d2[j]) == k && d2[j].version.location == l);
        }
        assert forall|l: LocationView| key_locations(d2, k).contains(l) implies key_locations(
            d1,
            k,
        ).contains(l) by {
            let i = choose|i: int|
                0 <= i < d2.len() && #[trigger] dep_key(d2[i]) == k && d2[i].version.location == l;
            assert(d2.contains(d2[i]));
            let j = choose|j: int| 0 <= j < d1.len() && d1[j] == d2[i];
            assert(dep_key(d1[j]) == k && d1[j].version.location == l);
        }
        assert(key_locations(d1, k) =~= key_locations(d2, k));
    }
}

} // verus!
