use vstd::prelude::*;

use crate::requirement::{DependencyVersionReq, ReqBound};
use crate::version::{triple_le, triple_lt, PackageVersion};

verus! {

/// The version-set form handed to the solver: a set of semantic
/// versions, stored as ordered intervals.
pub type VersionRanges = version_ranges::Ranges<semver::Version>;

/// The version triples (major, minor, patch) that a range admits,
/// among versions without pre-release or build metadata.  The model
/// speaks of such versions only: every version this resolver builds is
/// made with `semver::Version::new`, which leaves pre-release and
/// build metadata empty.
pub uninterp spec fn range_versions(r: VersionRanges) -> Set<(int, int, int)>;

/// Relies on `version_ranges::Ranges::full`: the set of all versions.
#[verifier::external_body]
fn range_full() -> (r: VersionRanges)
    ensures
        forall|t: (int, int, int)| #[trigger] range_versions(r).contains(t),
{
    version_ranges::Ranges::full()
}

/// Relies on `version_ranges::Ranges::singleton`: only the given
/// version, and on `semver::Version` equality, which for versions
/// without pre-release or build metadata holds exactly when the
/// numeric components agree.
#[verifier::external_body]
fn range_singleton(v: &PackageVersion) -> (r: VersionRanges)
    ensures
        forall|t: (int, int, int)|
            #[trigger] range_versions(r).contains(t) <==> t == v.as_triple(),
{
    version_ranges::Ranges::singleton(semver::Version::new(v.major, v.minor, v.patch))
}

/// Relies on `version_ranges::Ranges::higher_than`: all versions
/// greater than or equal to the given one, and on `semver::Version`
/// ordering, which for versions without pre-release metadata is the
/// lexicographic order of the numeric components.
#[verifier::external_body]
fn range_higher_than(v: &PackageVersion) -> (r: VersionRanges)
    ensures
        forall|t: (int, int, int)|
            #[trigger] range_versions(r).contains(t) <==> triple_le(v.as_triple(), t),
{
    version_ranges::Ranges::higher_than(semver::Version::new(v.major, v.minor, v.patch))
}

/// Relies on `version_ranges::Ranges::strictly_higher_than` and on
/// `semver::Version` ordering, as for `range_higher_than`.
#[verifier::external_body]
fn range_strictly_higher_than(v: &PackageVersion) -> (r: VersionRanges)
    ensures
        forall|t: (int, int, int)|
            #[trigger] range_versions(r).contains(t) <==> triple_lt(v.as_triple(), t),
{
    version_ranges::Ranges::strictly_higher_than(semver::Version::new(v.major, v.minor, v.patch))
}

/// Relies on `version_ranges::Ranges::lower_than` and on
/// `semver::Version` ordering, as for `range_higher_than`.
#[verifier::external_body]
fn range_lower_than(v: &PackageVersion) -> (r: VersionRanges)
    ensures
        forall|t: (int, int, int)|
            #[trigger] range_versions(r).contains(t) <==> triple_le(t, v.as_triple()),
{
    version_ranges::Ranges::lower_than(semver::Version::new(v.major, v.minor, v.patch))
}

/// Relies on `version_ranges::Ranges::strictly_lower_than` and on
/// `semver::Version` ordering, as for `range_higher_than`.
#[verifier::external_body]
fn range_strictly_lower_than(v: &PackageVersion) -> (r: VersionRanges)
    ensures
        forall|t: (int, int, int)|
            #[trigger] range_versions(r).contains(t) <==> triple_lt(t, v.as_triple()),
{
    version_ranges::Ranges::strictly_lower_than(semver::Version::new(v.major, v.minor, v.patch))
}

/// Relies on `version_ranges::Ranges::intersection`: the versions in
/// both sets.
#[verifier::external_body]
fn range_intersection(a: &VersionRanges, b: &VersionRanges) -> (r: VersionRanges)
    ensures
        forall|t: (int, int, int)|
            #[trigger] range_versions(r).contains(t) <==> (range_versions(*a).contains(t)
                && range_versions(*b).contains(t)),
{
    a.intersection(b)
}

/// Relies on `version_ranges::Ranges::contains` and on
/// `semver::Version::new` leaving pre-release and build metadata
/// empty.
#[verifier::external_body]
pub(crate) fn range_contains(r: &VersionRanges, v: &PackageVersion) -> (b: bool)
    ensures
        b == range_versions(*r).contains(v.as_triple()),
{
    r.contains(&semver::Version::new(v.major, v.minor, v.patch))
}

/// Convert a requirement into the version-set form the solver takes:
/// the range admits exactly the versions the requirement matches.
pub fn req_to_range(req: &DependencyVersionReq) -> (r: VersionRanges)
    ensures
        forall|t: (int, int, int)| #[trigger] range_versions(r).contains(t) <==> req.admits(t),
{
    match req {
        DependencyVersionReq::Any => range_full(),
        DependencyVersionReq::Range { lower, upper } => {
            let lo = match lower {
                ReqBound::Unbounded => range_full(),
                ReqBound::Inclusive(v) => range_higher_than(v),
                ReqBound::Exclusive(v) => range_strictly_higher_than(v),
            };
            let hi = match upper {
                ReqBound::Unbounded => range_full(),
                ReqBound::Inclusive(v) => range_lower_than(v),
                ReqBound::Exclusive(v) => range_strictly_lower_than(v),
            };
            range_intersection(&lo, &hi)
        },
        DependencyVersionReq::Locked { exact } => range_singleton(exact),
    }
}

} // verus!
