use vstd::prelude::*;

use crate::version::{triple_le, triple_lt, PackageVersion};

verus! {

/// One end of a version interval.
#[derive(Clone, Copy, Debug, PartialEq, Eq, Structural)]
pub enum ReqBound {
    Unbounded,
    Inclusive(PackageVersion),
    Exclusive(PackageVersion),
}

/// A dependency's version requirement: anything, a contiguous interval
/// of versions, or an exact version pinned by a lockfile.  The model
/// stops here deliberately: requirements are one interval over numeric
/// versions, and pre-release or build metadata takes no part; richer
/// selectors reach the solver only as the version sets the ranges
/// module builds.
#[derive(Clone, Copy, Debug, PartialEq, Eq, Structural)]
pub enum DependencyVersionReq {
    Any,
    Range { lower: ReqBound, upper: ReqBound },
    Locked { exact: PackageVersion },
}

pub open spec fn lower_admits(b: ReqBound, t: (int, int, int)) -> bool {
    match b {
        ReqBound::Unbounded => true,
        ReqBound::Inclusive(v) => triple_le(v.as_triple(), t),
        ReqBound::Exclusive(v) => triple_lt(v.as_triple(), t),
    }
}

pub open spec fn upper_admits(b: ReqBound, t: (int, int, int)) -> bool {
    match b {
        ReqBound::Unbounded => true,
        ReqBound::Inclusive(v) => triple_le(t, v.as_triple()),
        ReqBound::Exclusive(v) => triple_lt(t, v.as_triple()),
    }
}

impl DependencyVersionReq {
    /// Which version triples the requirement admits.
    pub open spec fn admits(self, t: (int, int, int)) -> bool {
        match self {
            DependencyVersionReq::Any => true,
            DependencyVersionReq::Range { lower, upper } => {
                lower_admits(lower, t) && upper_admits(upper, t)
            },
            DependencyVersionReq::Locked { exact } => t == exact.as_triple(),
        }
    }

    pub open spec fn matches_spec(self, v: PackageVersion) -> bool {
        self.admits(v.as_triple())
    }

    pub fn matches(&self, version: &PackageVersion) -> (r: bool)
        ensures
            r == self.matches_spec(*version),
    {
        match self {
            DependencyVersionReq::Any => true,
            DependencyVersionReq::Range { lower, upper } => {
                let low_ok = match lower {
                    ReqBound::Unbounded => true,
                    ReqBound::Inclusive(v) => v.le(version),
                    ReqBound::Exclusive(v) => v.lt(version),
                };
                let high_ok = match upper {
                    ReqBound::Unbounded => true,
                    ReqBound::Inclusive(v) => version.le(v),
                    ReqBound::Exclusive(v) => version.lt(v),
                };
                low_ok && high_ok
            },
            DependencyVersionReq::Locked { exact } => {
                exact.major == version.major && exact.minor == version.minor
                    && exact.patch == version.patch
            },
        }
    }

    /// The requirement satisfied by exactly one version.
    pub fn exact(version: &PackageVersion) -> (r: Self)
        ensures
            r == (DependencyVersionReq::Range {
                lower: ReqBound::Inclusive(*version),
                upper: ReqBound::Inclusive(*version),
            }),
            forall|v: PackageVersion| r.matches_spec(v) <==> v == *version,
    {
        DependencyVersionReq::Range {
            lower: ReqBound::Inclusive(*version),
            upper: ReqBound::Inclusive(*version),
        }
    }
}

} // verus!
