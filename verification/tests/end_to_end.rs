use std::cell::RefCell;

use pubgrub::{
    resolve, Dependencies, DependencyConstraints, DependencyProvider, DefaultStringReporter,
    PackageResolutionStatistics, PubGrubError, Ranges, Reporter,
};

use scarb_resolver::index::{PackageOnceMap, VersionsResponse};
use scarb_resolver::pkg::{DepKind, ManifestDependency, PackageId, PubGrubPackage, Summary};
use scarb_resolver::provider::{
    ChooseOutcome, DependencyProviderError, DepsOutcome, PubGrubDependencyProvider,
    PubGrubPriority,
};
use scarb_resolver::requirement::{DependencyVersionReq, ReqBound};
use scarb_resolver::resolver::validate_solution;
use scarb_resolver::source::{SourceId, SourceKind};
use scarb_resolver::version::PackageVersion;

fn registry_source() -> SourceId {
    SourceId::new(SourceKind::Registry, String::from("registry+https://example.test/index"))
}

fn v(major: u64, minor: u64, patch: u64) -> PackageVersion {
    PackageVersion::new(major, minor, patch)
}

fn caret(major: u64, minor: u64) -> DependencyVersionReq {
    DependencyVersionReq::Range {
        lower: ReqBound::Inclusive(v(major, minor, 0)),
        upper: ReqBound::Exclusive(v(major + 1, 0, 0)),
    }
}

fn eq_req(major: u64, minor: u64, patch: u64) -> DependencyVersionReq {
    DependencyVersionReq::exact(&v(major, minor, patch))
}

#[derive(Debug)]
struct DriverError(String);

impl std::fmt::Display for DriverError {
    fn fmt(&self, f: &mut std::fmt::Formatter<'_>) -> std::fmt::Result {
        f.write_str(&self.0)
    }
}

impl std::error::Error for DriverError {}

fn describe(e: DependencyProviderError) -> DriverError {
    match e {
        DependencyProviderError::PackageNotFound { name, .. } => {
            let mut m = String::from("cannot find package ");
            m.push_str(&name);
            DriverError(m)
        },
        DependencyProviderError::PackageQueryFailed { message } => DriverError(message),
        DependencyProviderError::ChannelClosed => DriverError(String::from("channel closed")),
        DependencyProviderError::SelfDependency { name, .. } => {
            let mut m = String::from("self dependency found: ");
            m.push_str(&name);
            DriverError(m)
        },
    }
}

/// Drives the verified provider synchronously: whenever the provider
/// reports an identity as pending, the driver plays the fetch side and
/// fulfils the shared index from a plain in-memory registry.
struct Driver {
    source: SourceId,
    provider: RefCell<PubGrubDependencyProvider>,
    index: RefCell<PackageOnceMap>,
    registry: Vec<(String, Vec<Summary>)>,
}

impl Driver {
    fn new(root: (&str, PackageVersion), registry: Vec<(String, Vec<Summary>)>) -> Driver {
        let source = registry_source();
        let root_id = PackageId::new(String::from(root.0), root.1, source.clone());
        Driver {
            source,
            provider: RefCell::new(PubGrubDependencyProvider::new(vec![root_id])),
            index: RefCell::new(PackageOnceMap::new()),
            registry,
        }
    }

    fn identity(&self, name: &str) -> PubGrubPackage {
        PubGrubPackage { name: String::from(name), source_id: self.source.clone() }
    }

    fn fulfill(&self, p: &PubGrubPackage) {
        let list: Vec<Summary> = self
            .registry
            .iter()
            .find(|(name, _)| name.as_str() == p.name.as_str())
            .map(|(_, summaries)| summaries.clone())
            .unwrap_or_default();
        let mut index = self.index.borrow_mut();
        index.register(p);
        index.done(p, VersionsResponse::Found(list));
    }
}

impl DependencyProvider for Driver {
    type P = String;
    type V = semver::Version;
    type VS = Ranges<semver::Version>;
    type M = String;
    type Priority = u64;
    type Err = DriverError;

    fn prioritize(
        &self,
        package: &String,
        _range: &Ranges<semver::Version>,
        _statistics: &PackageResolutionStatistics,
    ) -> u64 {
        let pkg = self.identity(package);
        let (priority, fresh) = {
            let provider = self.provider.borrow();
            let mut index = self.index.borrow_mut();
            provider.prioritize(&mut index, &pkg)
        };
        if fresh {
            self.fulfill(&pkg);
        }
        match priority {
            Some(PubGrubPriority::Root) => u64::MAX,
            Some(PubGrubPriority::DirectUrl(d)) => u64::MAX - 1 - d as u64,
            Some(PubGrubPriority::Singleton(d)) => u64::MAX / 2 - d as u64,
            Some(PubGrubPriority::Unspecified(d)) => u64::MAX / 4 - d as u64,
            None => 0,
        }
    }

    fn choose_version(
        &self,
        package: &String,
        range: &Ranges<semver::Version>,
    ) -> Result<Option<semver::Version>, DriverError> {
        let pkg = self.identity(package);
        loop {
            let outcome = {
                let mut provider = self.provider.borrow_mut();
                let index = self.index.borrow();
                provider.choose_version(&index, &pkg, range)
            };
            match outcome {
                ChooseOutcome::Chosen(choice) => {
                    return Ok(choice.map(|pv| semver::Version::new(pv.major, pv.minor, pv.patch)));
                },
                ChooseOutcome::Pending(p) => self.fulfill(&p),
            }
        }
    }

    fn get_dependencies(
        &self,
        package: &String,
        version: &semver::Version,
    ) -> Result<Dependencies<String, Ranges<semver::Version>, String>, DriverError> {
        let pkg = self.identity(package);
        let pv = v(version.major, version.minor, version.patch);
        loop {
            let outcome = {
                let mut provider = self.provider.borrow_mut();
                let mut index = self.index.borrow_mut();
                provider.get_dependencies(&mut index, &pkg, &pv)
            };
            match outcome {
                DepsOutcome::Available { constraints, requests } => {
                    for r in &requests {
                        if self.index.borrow().get(r).is_none() {
                            self.fulfill(r);
                        }
                    }
                    let edges: DependencyConstraints<String, Ranges<semver::Version>> =
                        constraints
                            .into_iter()
                            .map(|(p, range)| (p.name.clone(), range))
                            .collect();
                    return Ok(Dependencies::Available(edges));
                },
                DepsOutcome::Pending { package: waiting, requests } => {
                    for r in &requests {
                        if self.index.borrow().get(r).is_none() {
                            self.fulfill(r);
                        }
                    }
                    self.fulfill(&waiting);
                },
                DepsOutcome::Failed(e) => return Err(describe(e)),
            }
        }
    }
}

fn summary(
    source: &SourceId,
    name: &str,
    version: PackageVersion,
    deps: Vec<(&str, DependencyVersionReq)>,
) -> Summary {
    Summary {
        package_id: PackageId::new(String::from(name), version, source.clone()),
        dependencies: deps
            .into_iter()
            .map(|(dep_name, req)| ManifestDependency {
                name: String::from(dep_name),
                source_id: source.clone(),
                version_req: req,
                kind: DepKind::Normal,
            })
            .collect(),
    }
}

#[test]
fn resolves_highest_compatible_versions() {
    let source = registry_source();
    let registry = vec![
        (
            String::from("a"),
            vec![summary(&source, "a", v(1, 0, 0), vec![("b", caret(1, 0))])],
        ),
        (
            String::from("b"),
            vec![
                summary(&source, "b", v(1, 0, 0), vec![]),
                summary(&source, "b", v(1, 1, 0), vec![("c", caret(2, 0))]),
            ],
        ),
        (String::from("c"), vec![summary(&source, "c", v(2, 0, 0), vec![])]),
    ];
    let driver = Driver::new(("a", v(1, 0, 0)), registry);
    let solution =
        resolve(&driver, String::from("a"), semver::Version::new(1, 0, 0)).expect("solvable");

    assert_eq!(solution.get(&String::from("a")), Some(&semver::Version::new(1, 0, 0)));
    assert_eq!(solution.get(&String::from("b")), Some(&semver::Version::new(1, 1, 0)));
    assert_eq!(solution.get(&String::from("c")), Some(&semver::Version::new(2, 0, 0)));

    let as_model: Vec<(PubGrubPackage, PackageVersion)> = solution
        .iter()
        .map(|(name, ver)| {
            (driver.identity(name), v(ver.major, ver.minor, ver.patch))
        })
        .collect();
    assert!(validate_solution(&as_model).is_ok());
}

#[test]
fn conflicting_exact_requirements_are_infeasible() {
    let source = registry_source();
    let registry = vec![
        (
            String::from("r"),
            vec![summary(
                &source,
                "r",
                v(1, 0, 0),
                vec![("b", caret(1, 0)), ("d", caret(1, 0))],
            )],
        ),
        (
            String::from("b"),
            vec![summary(&source, "b", v(1, 0, 0), vec![("e", eq_req(1, 0, 0))])],
        ),
        (
            String::from("d"),
            vec![summary(&source, "d", v(1, 0, 0), vec![("e", eq_req(2, 0, 0))])],
        ),
        (
            String::from("e"),
            vec![
                summary(&source, "e", v(1, 0, 0), vec![]),
                summary(&source, "e", v(2, 0, 0), vec![]),
            ],
        ),
    ];
    let driver = Driver::new(("r", v(1, 0, 0)), registry);
    let err = resolve(&driver, String::from("r"), semver::Version::new(1, 0, 0))
        .expect_err("requirements on e conflict");
    match err {
        PubGrubError::NoSolution(tree) => {
            let explanation = DefaultStringReporter::report(&tree);
            assert!(explanation.contains("e"));
            assert!(explanation.contains("1.0.0"));
            assert!(explanation.contains("2.0.0"));
        },
        other => panic!("expected an infeasibility explanation, got {:?}", other),
    }
}

#[test]
fn self_dependency_fails_the_run() {
    let source = registry_source();
    let registry = vec![(
        String::from("s"),
        vec![summary(&source, "s", v(1, 0, 0), vec![("s", caret(1, 0))])],
    )];
    let driver = Driver::new(("s", v(1, 0, 0)), registry);
    let err = resolve(&driver, String::from("s"), semver::Version::new(1, 0, 0))
        .expect_err("self dependency must fail");
    match err {
        PubGrubError::ErrorRetrievingDependencies { source: e, .. } => {
            let text = e.to_string();
            assert!(text.contains("self dependency"));
            assert!(text.contains("s"));
        },
        other => panic!("expected a self-dependency failure, got {:?}", other),
    }
}
