use vstd::prelude::*;

use crate::requirement::DependencyVersionReq;
use crate::source::SourceId;
use crate::version::PackageVersion;

verus! {

/// The solver's unit of version selection: a package name plus the
/// source it is drawn from.  The same name from two different sources
/// is two distinct entities.
#[derive(Debug, Hash, PartialEq, Eq)]
pub struct PubGrubPackage {
    pub name: String,
    pub source_id: SourceId,
}

/// A fully resolved package: identity plus a concrete version.
#[derive(Debug, Hash, PartialEq, Eq)]
pub struct PackageId {
    pub name: String,
    pub version: PackageVersion,
    pub source_id: SourceId,
}

/// Whether a dependency takes part in every build or only in
/// development builds of the package that declares it.
#[derive(Clone, Copy, Debug, PartialEq, Eq, Structural)]
pub enum DepKind {
    Normal,
    Dev,
}

/// One declared dependency edge: the target's identity, the admitted
/// versions, and the dependency's kind.
#[derive(Debug)]
pub struct ManifestDependency {
    pub name: String,
    pub source_id: SourceId,
    pub version_req: DependencyVersionReq,
    pub kind: DepKind,
}

/// Registry metadata for one package version: its identity and its
/// full dependency list.  Immutable once obtained from the registry.
#[derive(Debug)]
pub struct Summary {
    pub package_id: PackageId,
    pub dependencies: Vec<ManifestDependency>,
}

/// Directional dependency filter: a root package propagates every
/// dependency kind, any other package propagates only the kinds that
/// matter for transitive resolution.
#[derive(Clone, Copy, Debug, PartialEq, Eq, Structural)]
pub enum DependencyFilter {
    Everything,
    TransitiveOnly,
}

impl PubGrubPackage {
    /// Identity equality, stated over the name text and the source.
    pub open spec fn same(self, other: PubGrubPackage) -> bool {
        self.name@ == other.name@ && self.source_id.same(other.source_id)
    }

    pub fn same_package(&self, other: &PubGrubPackage) -> (r: bool)
        ensures
            r == self.same(*other),
    {
        self.name == other.name && self.source_id.same_source(&other.source_id)
    }

    /// The dependency that asks the registry for every known version
    /// of this package.
    pub fn to_dependency(&self) -> (r: ManifestDependency)
        ensures
            r.name == self.name,
            r.source_id == self.source_id,
            r.version_req == DependencyVersionReq::Any,
            r.kind == DepKind::Normal,
    {
        ManifestDependency {
            name: self.name.clone(),
            source_id: self.source_id.clone(),
            version_req: DependencyVersionReq::Any,
            kind: DepKind::Normal,
        }
    }
}

impl Clone for PubGrubPackage {
    fn clone(&self) -> (r: Self)
        ensures
            r == *self,
    {
        PubGrubPackage { name: self.name.clone(), source_id: self.source_id.clone() }
    }
}

impl PackageId {
    /// The package identity (name and source) of this resolved
    /// package, as a mathematical value.
    pub open spec fn identity(self) -> PubGrubPackage {
        PubGrubPackage { name: self.name, source_id: self.source_id }
    }

    /// Identity-and-version equality, stated over the name text.
    pub open spec fn same(self, other: PackageId) -> bool {
        self.name@ == other.name@ && self.version == other.version
            && self.source_id.same(other.source_id)
    }

    pub fn new(name: String, version: PackageVersion, source_id: SourceId) -> (r: PackageId)
        ensures
            r == (PackageId { name, version, source_id }),
    {
        PackageId { name, version, source_id }
    }

    pub fn same_id(&self, other: &PackageId) -> (r: bool)
        ensures
            r == self.same(*other),
    {
        self.name == other.name && self.version.major == other.version.major
            && self.version.minor == other.version.minor
            && self.version.patch == other.version.patch
            && self.source_id.same_source(&other.source_id)
    }

    /// The package identity this resolved package belongs to.
    pub fn to_package(&self) -> (r: PubGrubPackage)
        ensures
            r == self.identity(),
    {
        PubGrubPackage { name: self.name.clone(), source_id: self.source_id.clone() }
    }
}

impl Clone for PackageId {
    fn clone(&self) -> (r: Self)
        ensures
            r == *self,
    {
        PackageId {
            name: self.name.clone(),
            version: self.version,
            source_id: self.source_id.clone(),
        }
    }
}

impl ManifestDependency {
    /// The package identity this dependency points at, as a
    /// mathematical value.
    pub open spec fn identity(self) -> PubGrubPackage {
        PubGrubPackage { name: self.name, source_id: self.source_id }
    }

    /// The package identity this dependency points at.
    pub fn to_package(&self) -> (r: PubGrubPackage)
        ensures
            r == self.identity(),
    {
        PubGrubPackage { name: self.name.clone(), source_id: self.source_id.clone() }
    }
}

impl Clone for ManifestDependency {
    fn clone(&self) -> (r: Self)
        ensures
            r == *self,
    {
        ManifestDependency {
            name: self.name.clone(),
            source_id: self.source_id.clone(),
            version_req: self.version_req,
            kind: self.kind,
        }
    }
}

impl DependencyFilter {
    /// The filter that belongs to a package: everything for a root
    /// package, otherwise only what transitive resolution needs.
    pub open spec fn propagation_spec(main: bool) -> DependencyFilter {
        if main {
            DependencyFilter::Everything
        } else {
            DependencyFilter::TransitiveOnly
        }
    }

    /// The filter used when propagating the dependencies of a package.
    pub fn propagation(main: bool) -> (r: Self)
        ensures
            r == DependencyFilter::propagation_spec(main),
    {
        if main {
            DependencyFilter::Everything
        } else {
            DependencyFilter::TransitiveOnly
        }
    }

    pub open spec fn allows(self, kind: DepKind) -> bool {
        match self {
            DependencyFilter::Everything => true,
            DependencyFilter::TransitiveOnly => kind == DepKind::Normal,
        }
    }

    pub fn allows_kind(&self, kind: &DepKind) -> (r: bool)
        ensures
            r == self.allows(*kind),
    {
        match self {
            DependencyFilter::Everything => true,
            DependencyFilter::TransitiveOnly => match kind {
                DepKind::Normal => true,
                DepKind::Dev => false,
            },
        }
    }
}

impl Summary {
    /// Two summaries carry the same metadata: same resolved package
    /// and the same dependency list.
    pub open spec fn same(self, other: Summary) -> bool {
        self.package_id == other.package_id && self.dependencies@ == other.dependencies@
    }

    /// Every declared dependency, whatever its kind.
    pub fn full_dependencies(&self) -> (r: &Vec<ManifestDependency>)
        ensures
            r@ == self.dependencies@,
    {
        &self.dependencies
    }

    /// The declared dependencies that the given filter lets through,
    /// in declaration order.
    pub fn filtered_full_dependencies(&self, filter: &DependencyFilter) -> (r: Vec<
        ManifestDependency,
    >)
        ensures
            r@ == self.dependencies@.filter(|d: ManifestDependency| filter.allows(d.kind)),
    {
        let ghost pred = |d: ManifestDependency| filter.allows(d.kind);
        let mut out: Vec<ManifestDependency> = Vec::new();
        let mut i: usize = 0;
        while i < self.dependencies.len()
            invariant
                i <= self.dependencies.len(),
                pred == (|d: ManifestDependency| filter.allows(d.kind)),
                out@ == self.dependencies@.take(i as int).filter(pred),
            decreases self.dependencies.len() - i,
        {
            let d = &self.dependencies[i];
            if filter.allows_kind(&d.kind) {
                out.push(d.clone());
            }
            proof {
                reveal(Seq::filter);
                let s = self.dependencies@;
                assert(s.take(i + 1).drop_last() =~= s.take(i as int));
                assert(s.take(i + 1).last() == s[i as int]);
                assert(s.take(i + 1).filter(pred) == if pred(s[i as int]) {
                    s.take(i as int).filter(pred).push(s[i as int])
                } else {
                    s.take(i as int).filter(pred)
                });
            }
            i += 1;
        }
        proof {
            assert(self.dependencies@.take(self.dependencies@.len() as int)
                =~= self.dependencies@);
        }
        out
    }
}

impl Clone for Summary {
    fn clone(&self) -> (r: Self)
        ensures
            r.same(*self),
    {
        let deps = self.dependencies.clone();
        proof {
            assert forall|i: int| 0 <= i < deps@.len() implies deps@[i]
                == self.dependencies@[i] by {
                assert(cloned::<ManifestDependency>(self.dependencies[i], deps[i]));
            }
            assert(deps@ =~= self.dependencies@);
        }
        Summary { package_id: self.package_id.clone(), dependencies: deps }
    }
}

} // verus!
