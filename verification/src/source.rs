use vstd::prelude::*;

verus! {

/// Which kind of origin a package is drawn from.
#[derive(Clone, Copy, Debug, Hash, PartialEq, Eq, Structural)]
pub enum SourceKind {
    Registry,
    Git,
    Path,
}

/// Where a package's metadata comes from: a registry, a git reference
/// or a local path, together with its address.  Two sources are the
/// same entity exactly when both parts agree; identities that differ
/// only in their source are distinct packages to the resolver.
#[derive(Debug, Hash, PartialEq, Eq)]
pub struct SourceId {
    pub kind: SourceKind,
    pub location: String,
}

impl SourceId {
    /// Source equality, stated over the address text.
    pub open spec fn same(self, other: SourceId) -> bool {
        self.kind == other.kind && self.location@ == other.location@
    }

    pub fn new(kind: SourceKind, location: String) -> (r: SourceId)
        ensures
            r == (SourceId { kind, location }),
    {
        SourceId { kind, location }
    }

    pub fn is_git(&self) -> (r: bool)
        ensures
            r == (self.kind == SourceKind::Git),
    {
        match self.kind {
            SourceKind::Git => true,
            _ => false,
        }
    }

    pub fn is_path(&self) -> (r: bool)
        ensures
            r == (self.kind == SourceKind::Path),
    {
        match self.kind {
            SourceKind::Path => true,
            _ => false,
        }
    }

    pub fn same_source(&self, other: &SourceId) -> (r: bool)
        ensures
            r == self.same(*other),
    {
        self.kind == other.kind && self.location == other.location
    }
}

impl Clone for SourceId {
    fn clone(&self) -> (r: Self)
        ensures
            r == *self,
    {
        SourceId { kind: self.kind, location: self.location.clone() }
    }
}

} // verus!
