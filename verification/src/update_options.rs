//! The update-options engine: given a current version and the versions a
//! registry offers, the best upgrade candidate of each tier.

use core::cmp::Ordering;
use vstd::prelude::*;

use crate::version::{
    lemma_version_cmp_antisymmetric, version_cmp, PreReleaseView, Version, VersionView,
};

verus! {

/// One of the four upgrade tiers.
#[derive(Debug, Clone, Copy, PartialEq, Eq, Structural)]
pub enum VersionType {
    Major,
    Minor,
    Patch,
    PreRelease,
}

impl VersionType {
    pub open spec fn spec_next(self) -> VersionType {
        match self {
            VersionType::Major => VersionType::Minor,
            VersionType::Minor => VersionType::Patch,
            VersionType::Patch => VersionType::PreRelease,
            VersionType::PreRelease => VersionType::Major,
        }
    }

    /// The tier after this one, cyclically.
    pub fn next(self) -> (r: VersionType)
        ensures
            r == self.spec_next(),
    {
        match self {
            VersionType::Major => VersionType::Minor,
            VersionType::Minor => VersionType::Patch,
            VersionType::Patch => VersionType::PreRelease,
            VersionType::PreRelease => VersionType::Major,
        }
    }

    pub open spec fn spec_prev(self) -> VersionType {
        match self {
            VersionType::Major => VersionType::PreRelease,
            VersionType::Minor => VersionType::Major,
            VersionType::Patch => VersionType::Minor,
            VersionType::PreRelease => VersionType::Patch,
        }
    }

    /// The tier before this one, cyclically.
    pub fn prev(self) -> (r: VersionType)
        ensures
            r == self.spec_prev(),
    {
        match self {
            VersionType::Major => VersionType::PreRelease,
            VersionType::Minor => VersionType::Major,
            VersionType::Patch => VersionType::Minor,
            VersionType::PreRelease => VersionType::Patch,
        }
    }
}

/// The best upgrade candidate of each tier, each optional.
#[derive(Debug)]
pub struct UpdateOptions {
    pub major: Option<Version>,
    pub minor: Option<Version>,
    pub patch: Option<Version>,
    pub pre_release: Option<Version>,
}

/// Mathematical model of [`UpdateOptions`].
pub struct UpdateOptionsView {
    pub major: Option<VersionView>,
    pub minor: Option<VersionView>,
    pub patch: Option<VersionView>,
    pub pre_release: Option<VersionView>,
}

impl View for UpdateOptions {
    type V = UpdateOptionsView;

    open spec fn view(&self) -> UpdateOptionsView {
        UpdateOptionsView {
            major: self.major.deep_view(),
            minor: self.minor.deep_view(),
            patch: self.patch.deep_view(),
            pre_release: self.pre_release.deep_view(),
        }
    }
}

impl DeepView for UpdateOptions {
    type V = UpdateOptionsView;

    open spec fn deep_view(&self) -> UpdateOptionsView {
        self.view()
    }
}

impl Clone for UpdateOptions {
    fn clone(&self) -> (r: Self)
        ensures
            r == *self,
    {
        UpdateOptions {
            major: match &self.major {
                Some(v) => Some(v.clone()),
                None => None,
            },
            minor: match &self.minor {
                Some(v) => Some(v.clone()),
                None => None,
            },
            patch: match &self.patch {
                Some(v) => Some(v.clone()),
                None => None,
            },
            pre_release: match &self.pre_release {
                Some(v) => Some(v.clone()),
                None => None,
            },
        }
    }
}

// ---------------------------------------------------------------------
// The engine, as a specification.
// ---------------------------------------------------------------------

pub open spec fn views_of(s: Seq<Version>) -> Seq<VersionView> {
    s.map_values(|v: Version| v@)
}

pub open spec fn view_major(v: VersionView) -> Option<u32> {
    match v {
        VersionView::SemVer { major, .. } => Some(major),
        VersionView::Other(_) => None,
    }
}

pub open spec fn view_minor(v: VersionView) -> Option<u32> {
    match v {
        VersionView::SemVer { minor, .. } => Some(minor),
        VersionView::Other(_) => None,
    }
}

pub open spec fn view_patch(v: VersionView) -> Option<u32> {
    match v {
        VersionView::SemVer { patch, .. } => Some(patch),
        VersionView::Other(_) => None,
    }
}

pub open spec fn view_pre(v: VersionView) -> Option<PreReleaseView> {
    match v {
        VersionView::SemVer { pre_release, .. } => pre_release,
        VersionView::Other(_) => None,
    }
}

/// How `Option<u32>` orders: a present number above an absent one.
pub open spec fn opt_u32_gt(a: Option<u32>, b: Option<u32>) -> bool {
    match (a, b) {
        (Some(x), Some(y)) => x > y,
        (Some(_), None) => true,
        (None, _) => false,
    }
}

/// A candidate counts at all only when it parses and is strictly newer
/// than the current version.
pub open spec fn qualifies(v: VersionView, cur: VersionView) -> bool {
    v is SemVer && version_cmp(cur, v) == Ordering::Less
}

/// The exclusive tier a candidate may fill, as the cascade decides it:
/// a stable candidate takes the first of major, minor, patch whose
/// number it raises; a pre-release candidate only ever fills the
/// pre-release tier.
pub open spec fn tier_qualifies(v: VersionView, cur: VersionView, t: VersionType) -> bool {
    qualifies(v, cur) && match t {
        VersionType::Major => view_pre(v) is None && opt_u32_gt(view_major(v), view_major(cur)),
        VersionType::Minor => view_pre(v) is None && !opt_u32_gt(view_major(v), view_major(cur))
            && opt_u32_gt(view_minor(v), view_minor(cur)),
        VersionType::Patch => view_pre(v) is None && !opt_u32_gt(view_major(v), view_major(cur))
            && !opt_u32_gt(view_minor(v), view_minor(cur)) && opt_u32_gt(
            view_patch(v),
            view_patch(cur),
        ),
        VersionType::PreRelease => view_pre(v) is Some,
    }
}

/// The highest candidate that fills tier `t`, the latest of equals.
pub open spec fn tier_best(avail: Seq<VersionView>, cur: VersionView, t: VersionType) -> Option<
    VersionView,
>
    decreases avail.len(),
{
    if avail.len() == 0 {
        None
    } else {
        let prev = tier_best(avail.drop_last(), cur, t);
        let v = avail.last();
        if tier_qualifies(v, cur, t) && match prev {
            None => true,
            Some(b) => version_cmp(b, v) != Ordering::Greater,
        } {
            Some(v)
        } else {
            prev
        }
    }
}

/// A pre-release is only offered when it is newer than every stable
/// option found; otherwise it is cleared.
pub open spec fn suppress_pre(o: UpdateOptionsView) -> UpdateOptionsView {
    match o.pre_release {
        None => o,
        Some(p) => {
            let beaten = (match o.major {
                Some(m) => version_cmp(p, m) != Ordering::Greater,
                None => false,
            }) || (match o.minor {
                Some(m) => version_cmp(p, m) != Ordering::Greater,
                None => false,
            }) || (match o.patch {
                Some(m) => version_cmp(p, m) != Ordering::Greater,
                None => false,
            });
            if beaten {
                UpdateOptionsView { pre_release: None, ..o }
            } else {
                o
            }
        },
    }
}

pub open spec fn options_view_is_empty(o: UpdateOptionsView) -> bool {
    o.major is None && o.minor is None && o.patch is None && o.pre_release is None
}

/// What the engine returns for a current version and an offer list:
/// the best candidate of each tier, pre-releases beaten by a stable
/// option cleared, and nothing at all when every tier is empty.
pub open spec fn spec_update_options(cur: VersionView, avail: Seq<VersionView>) -> Option<
    UpdateOptionsView,
> {
    let o = suppress_pre(
        UpdateOptionsView {
            major: tier_best(avail, cur, VersionType::Major),
            minor: tier_best(avail, cur, VersionType::Minor),
            patch: tier_best(avail, cur, VersionType::Patch),
            pre_release: tier_best(avail, cur, VersionType::PreRelease),
        },
    );
    if options_view_is_empty(o) {
        None
    } else {
        Some(o)
    }
}

pub open spec fn zero_version() -> VersionView {
    VersionView::SemVer { major: 0, minor: 0, patch: 0, pre_release: None }
}

/// An unparsed current version is compared as if it were `0.0.0`; the
/// entry's own displayed version is untouched.
pub open spec fn spec_new_options(cur: VersionView, avail: Seq<VersionView>) -> Option<
    UpdateOptionsView,
> {
    match cur {
        VersionView::SemVer { .. } => spec_update_options(cur, avail),
        VersionView::Other(_) => spec_update_options(zero_version(), avail),
    }
}

// ---------------------------------------------------------------------
// The engine, executably.
// ---------------------------------------------------------------------

fn opt_u32_greater(a: Option<u32>, b: Option<u32>) -> (r: bool)
    ensures
        r == opt_u32_gt(a, b),
{
    match (a, b) {
        (Some(x), Some(y)) => x > y,
        (Some(_), None) => true,
        (None, _) => false,
    }
}

/// Whether `v` displaces what a tier currently holds: anything displaces
/// an empty tier, and a candidate at least as high displaces a held one.
fn displaces(held: &Option<Version>, v: &Version) -> (r: bool)
    ensures
        r == match held.deep_view() {
            None => true,
            Some(b) => version_cmp(b, v@) != Ordering::Greater,
        },
{
    match held {
        None => true,
        Some(b) => !matches!(b.compare(v), Ordering::Greater),
    }
}

impl UpdateOptions {
    /// No tier has a candidate.
    pub fn is_empty(&self) -> (r: bool)
        ensures
            r == options_view_is_empty(self@),
    {
        self.major.is_none() && self.minor.is_none() && self.patch.is_none()
            && self.pre_release.is_none()
    }

    /// Given the current version and a list of versions, the next major,
    /// minor, patch, and pre-release version, if any, that is greater
    /// than the current version.
    pub fn get_options_semver(current: &Version, available: &[Version]) -> (r: Option<
        UpdateOptions,
    >)
        ensures
            r.deep_view() == spec_update_options(current@, views_of(available@)),
    {
        let ghost avail = views_of(available@);
        let ghost cur = current@;
        let mut major: Option<Version> = None;
        let mut minor: Option<Version> = None;
        let mut patch: Option<Version> = None;
        let mut pre_release: Option<Version> = None;
        let mut idx: usize = 0;
        proof {
            assert(avail.take(0) =~= Seq::<VersionView>::empty());
        }
        while idx < available.len()
            invariant
                0 <= idx <= available@.len(),
                avail == views_of(available@),
                cur == current@,
                avail.len() == available@.len(),
                major.deep_view() == tier_best(avail.take(idx as int), cur, VersionType::Major),
                minor.deep_view() == tier_best(avail.take(idx as int), cur, VersionType::Minor),
                patch.deep_view() == tier_best(avail.take(idx as int), cur, VersionType::Patch),
                pre_release.deep_view() == tier_best(
                    avail.take(idx as int),
                    cur,
                    VersionType::PreRelease,
                ),
            decreases available@.len() - idx,
        {
            let v = &available[idx];
            proof {
                assert(avail[idx as int] == v@);
                assert(avail.take(idx as int + 1).drop_last() =~= avail.take(idx as int));
                assert(avail.take(idx as int + 1).last() == avail[idx as int]);
            }
            let is_newer_semver = matches!(v, Version::SemVer { .. }) && matches!(
                current.compare(v),
                Ordering::Less,
            );
            if is_newer_semver {
                let pre_none = v.pre_release().is_none();
                if pre_none && opt_u32_greater(v.major(), current.major()) {
                    if displaces(&major, v) {
                        major = Some(v.clone());
                    }
                } else if pre_none && opt_u32_greater(v.minor(), current.minor()) {
                    if displaces(&minor, v) {
                        minor = Some(v.clone());
                    }
                } else if pre_none && opt_u32_greater(v.patch(), current.patch()) {
                    if displaces(&patch, v) {
                        patch = Some(v.clone());
                    }
                } else if !pre_none {
                    if displaces(&pre_release, v) {
                        pre_release = Some(v.clone());
                    }
                }
            }
            idx = idx + 1;
        }
        proof {
            assert(avail.take(avail.len() as int) =~= avail);
        }

        // a pre-release beaten by a stable option is cleared
        let clear_pre = match &pre_release {
            None => false,
            Some(p) => {
                let beaten_major = match &major {
                    Some(m) => !matches!(p.compare(m), Ordering::Greater),
                    None => false,
                };
                let beaten_minor = match &minor {
                    Some(m) => !matches!(p.compare(m), Ordering::Greater),
                    None => false,
                };
                let beaten_patch = match &patch {
                    Some(m) => !matches!(p.compare(m), Ordering::Greater),
                    None => false,
                };
                beaten_major || beaten_minor || beaten_patch
            },
        };
        if clear_pre {
            pre_release = None;
        }

        let options = UpdateOptions { major, minor, patch, pre_release };
        if options.is_empty() {
            None
        } else {
            Some(options)
        }
    }

    /// Compute the options against the current version, with an unparsed
    /// current version standing in as `0.0.0` for the comparison only.
    pub fn new(current: &Version, available: &[Version]) -> (r: Option<UpdateOptions>)
        ensures
            r.deep_view() == spec_new_options(current@, views_of(available@)),
    {
        match current {
            Version::SemVer { .. } => UpdateOptions::get_options_semver(current, available),
            _ => {
                let zero = Version::SemVer { major: 0, minor: 0, patch: 0, pre_release: None };
                UpdateOptions::get_options_semver(&zero, available)
            },
        }
    }
}

// ---------------------------------------------------------------------
// With nothing newer on offer there is nothing to update.
// ---------------------------------------------------------------------

proof fn lemma_tier_best_none(avail: Seq<VersionView>, cur: VersionView, t: VersionType)
    requires
        forall|i: int| 0 <= i < avail.len() ==> !qualifies(#[trigger] avail[i], cur),
    ensures
        tier_best(avail, cur, t) is None,
    decreases avail.len(),
{
    if avail.len() > 0 {
        lemma_tier_best_none(avail.drop_last(), cur, t);
    }
}

/// When every available version compares at or below the current one,
/// the engine offers nothing.
pub proof fn lemma_no_update(cur: VersionView, avail: Seq<VersionView>)
    requires
        forall|i: int| 0 <= i < avail.len() ==> version_cmp(#[trigger] avail[i], cur)
            != Ordering::Greater,
    ensures
        spec_update_options(cur, avail) is None,
{
    assert forall|i: int| 0 <= i < avail.len() implies !qualifies(#[trigger] avail[i], cur) by {
        lemma_version_cmp_antisymmetric(avail[i], cur);
    }
    lemma_tier_best_none(avail, cur, VersionType::Major);
    lemma_tier_best_none(avail, cur, VersionType::Minor);
    lemma_tier_best_none(avail, cur, VersionType::Patch);
    lemma_tier_best_none(avail, cur, VersionType::PreRelease);
}

} // verus!
