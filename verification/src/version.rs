use vstd::prelude::*;

verus! {

/// A semantic version number.  Resolution compares versions by their
/// numeric components alone; pre-release and build metadata take no
/// part in version choice here.
#[derive(Clone, Copy, Debug, Hash, PartialEq, Eq, Structural)]
pub struct PackageVersion {
    pub major: u64,
    pub minor: u64,
    pub patch: u64,
}

/// Strict lexicographic order on version triples.
pub open spec fn triple_lt(a: (int, int, int), b: (int, int, int)) -> bool {
    ||| a.0 < b.0
    ||| (a.0 == b.0 && a.1 < b.1)
    ||| (a.0 == b.0 && a.1 == b.1 && a.2 < b.2)
}

pub open spec fn triple_le(a: (int, int, int), b: (int, int, int)) -> bool {
    triple_lt(a, b) || a == b
}

impl PackageVersion {
    pub fn new(major: u64, minor: u64, patch: u64) -> (r: PackageVersion)
        ensures
            r == (PackageVersion { major, minor, patch }),
    {
        PackageVersion { major, minor, patch }
    }

    /// The version as a mathematical triple, the form the ordering and
    /// the range model speak of.
    pub open spec fn as_triple(self) -> (int, int, int) {
        (self.major as int, self.minor as int, self.patch as int)
    }

    pub open spec fn spec_lt(self, other: PackageVersion) -> bool {
        triple_lt(self.as_triple(), other.as_triple())
    }

    pub open spec fn spec_le(self, other: PackageVersion) -> bool {
        triple_le(self.as_triple(), other.as_triple())
    }

    pub fn lt(&self, other: &PackageVersion) -> (r: bool)
        ensures
            r == self.spec_lt(*other),
    {
        if self.major != other.major {
            self.major < other.major
        } else if self.minor != other.minor {
            self.minor < other.minor
        } else {
            self.patch < other.patch
        }
    }

    pub fn le(&self, other: &PackageVersion) -> (r: bool)
        ensures
            r == self.spec_le(*other),
    {
        !other.lt(self)
    }
}

} // verus!
