use scarb_resolver::index::{InMemoryIndex, MetadataResponse, PackageOnceMap, VersionsResponse};
use scarb_resolver::pkg::{DepKind, ManifestDependency, PackageId, PubGrubPackage, Summary};
use scarb_resolver::provider::{
    ChooseOutcome, CustomIncompatibility, DependencyProviderError, DepsOutcome,
    PubGrubDependencyProvider, PubGrubPriority, QueryOutcome, RewriteOutcome, SummaryOutcome,
};
use scarb_resolver::ranges::req_to_range;
use scarb_resolver::requirement::{DependencyVersionReq, ReqBound};
use scarb_resolver::resolver::{prime_index, validate_solution};
use scarb_resolver::source::{SourceId, SourceKind};
use scarb_resolver::version::PackageVersion;

fn registry_source() -> SourceId {
    SourceId::new(SourceKind::Registry, String::from("registry+https://example.test/index"))
}

fn v(major: u64, minor: u64, patch: u64) -> PackageVersion {
    PackageVersion::new(major, minor, patch)
}

fn pkg(name: &str, source: &SourceId) -> PubGrubPackage {
    PubGrubPackage { name: String::from(name), source_id: source.clone() }
}

fn dep(name: &str, source: &SourceId, req: DependencyVersionReq) -> ManifestDependency {
    ManifestDependency {
        name: String::from(name),
        source_id: source.clone(),
        version_req: req,
        kind: DepKind::Normal,
    }
}

fn leaf(name: &str, version: PackageVersion, source: &SourceId) -> Summary {
    Summary {
        package_id: PackageId::new(String::from(name), version, source.clone()),
        dependencies: Vec::new(),
    }
}

#[test]
fn register_is_first_come_only() {
    let mut index = PackageOnceMap::new();
    let source = registry_source();
    let p = pkg("foo", &source);
    assert!(index.register(&p));
    assert!(!index.register(&p));
    let same_identity = pkg("foo", &source);
    assert!(!index.register(&same_identity));
    let other = pkg("bar", &source);
    assert!(index.register(&other));
}

#[test]
fn fulfilled_entries_are_write_once() {
    let mut index = PackageOnceMap::new();
    let source = registry_source();
    let p = pkg("foo", &source);
    index.register(&p);
    assert!(index.get(&p).is_none());

    let first = VersionsResponse::Found(vec![leaf("foo", v(1, 0, 0), &source)]);
    assert!(index.done(&p, first));
    let second = VersionsResponse::Found(vec![leaf("foo", v(9, 9, 9), &source)]);
    assert!(!index.done(&p, second));

    let VersionsResponse::Found(stored) = index.get(&p).expect("fulfilled");
    assert_eq!(stored.len(), 1);
    assert_eq!(stored[0].package_id.version, v(1, 0, 0));
}

#[test]
fn query_sorts_versions_highest_first() {
    let source = registry_source();
    let mut index = PackageOnceMap::new();
    let p = pkg("b", &source);
    index.register(&p);
    index.done(
        &p,
        VersionsResponse::Found(vec![
            leaf("b", v(1, 0, 0), &source),
            leaf("b", v(2, 0, 0), &source),
            leaf("b", v(1, 2, 0), &source),
        ]),
    );
    let mut provider = PubGrubDependencyProvider::new(Vec::new());
    match provider.query(&index, &dep("b", &source, DependencyVersionReq::Any)) {
        QueryOutcome::Ready(sorted) => {
            let versions: Vec<PackageVersion> =
                sorted.iter().map(|s| s.package_id.version).collect();
            assert_eq!(versions, vec![v(2, 0, 0), v(1, 2, 0), v(1, 0, 0)]);
        },
        QueryOutcome::Pending(_) => panic!("entry was fulfilled"),
    }
}

#[test]
fn choose_version_takes_maximum_in_range() {
    let source = registry_source();
    let mut index = PackageOnceMap::new();
    let p = pkg("b", &source);
    index.register(&p);
    index.done(
        &p,
        VersionsResponse::Found(vec![
            leaf("b", v(1, 0, 0), &source),
            leaf("b", v(1, 2, 0), &source),
            leaf("b", v(2, 0, 0), &source),
        ]),
    );
    let mut provider = PubGrubDependencyProvider::new(Vec::new());
    let range = req_to_range(&DependencyVersionReq::Range {
        lower: ReqBound::Inclusive(v(1, 0, 0)),
        upper: ReqBound::Exclusive(v(2, 0, 0)),
    });
    match provider.choose_version(&index, &p, &range) {
        ChooseOutcome::Chosen(Some(chosen)) => assert_eq!(chosen, v(1, 2, 0)),
        _ => panic!("a version in range exists"),
    }

    let none_range = req_to_range(&DependencyVersionReq::Range {
        lower: ReqBound::Inclusive(v(3, 0, 0)),
        upper: ReqBound::Unbounded,
    });
    match provider.choose_version(&index, &p, &none_range) {
        ChooseOutcome::Chosen(None) => (),
        _ => panic!("no version is at least 3.0.0"),
    }
}

#[test]
fn choose_version_waits_for_missing_metadata() {
    let source = registry_source();
    let index = PackageOnceMap::new();
    let p = pkg("b", &source);
    let mut provider = PubGrubDependencyProvider::new(Vec::new());
    let range = req_to_range(&DependencyVersionReq::Any);
    match provider.choose_version(&index, &p, &range) {
        ChooseOutcome::Pending(waiting) => assert!(waiting.same_package(&p)),
        _ => panic!("nothing was fulfilled yet"),
    }
}

#[test]
fn fetch_summary_finds_exact_pair_and_prefetches() {
    let source = registry_source();
    let mut index = PackageOnceMap::new();
    let b = pkg("b", &source);
    index.register(&b);
    let b11 = Summary {
        package_id: PackageId::new(String::from("b"), v(1, 1, 0), source.clone()),
        dependencies: vec![dep("c", &source, DependencyVersionReq::Any)],
    };
    index.done(
        &b,
        VersionsResponse::Found(vec![leaf("b", v(1, 0, 0), &source), b11]),
    );
    let mut provider = PubGrubDependencyProvider::new(Vec::new());
    let wanted = PackageId::new(String::from("b"), v(1, 1, 0), source.clone());
    match provider.fetch_summary(&mut index, &wanted) {
        SummaryOutcome::Fetched { summary, requests } => {
            assert_eq!(summary.package_id.version, v(1, 1, 0));
            assert_eq!(summary.dependencies.len(), 1);
            assert_eq!(requests.len(), 1);
            assert!(requests[0].same_package(&pkg("c", &source)));
            assert!(!index.register(&pkg("c", &source)));
        },
        _ => panic!("the exact pair is available"),
    }

    let missing = PackageId::new(String::from("b"), v(7, 0, 0), source.clone());
    match provider.fetch_summary(&mut index, &missing) {
        SummaryOutcome::Failed(DependencyProviderError::PackageNotFound { name, .. }) => {
            assert_eq!(name, "b");
        },
        _ => panic!("no summary resolves b 7.0.0"),
    }
}

#[test]
fn rewrite_redirects_path_dependency_under_git_parent() {
    let git = SourceId::new(SourceKind::Git, String::from("git+https://example.test/repo"));
    let path = SourceId::new(SourceKind::Path, String::from("path+/workspace/member"));
    let parent = PackageId::new(String::from("parent"), v(1, 0, 0), git.clone());
    let d = dep("member", &path, DependencyVersionReq::Any);

    let mut index = PackageOnceMap::new();
    let declared = pkg("member", &path);
    index.register(&declared);
    index.done(
        &declared,
        VersionsResponse::Found(vec![leaf("member", v(0, 1, 0), &path)]),
    );

    let provider = PubGrubDependencyProvider::new(Vec::new());
    match provider.rewrite_dependency_source_id(&mut index, &parent, &d) {
        RewriteOutcome::Rewritten(r) => {
            assert_eq!(r.name, "member");
            assert!(r.source_id.same_source(&git));
        },
        _ => panic!("the aliased identity has versions"),
    }
    let rewritten_identity = pkg("member", &git);
    let VersionsResponse::Found(copied) = index.get(&rewritten_identity).expect("aliased");
    assert_eq!(copied.len(), 1);
}

#[test]
fn rewrite_falls_back_when_rewritten_set_is_empty() {
    let git = SourceId::new(SourceKind::Git, String::from("git+https://example.test/repo"));
    let path = SourceId::new(SourceKind::Path, String::from("path+/workspace/member"));
    let parent = PackageId::new(String::from("parent"), v(1, 0, 0), git.clone());
    let d = dep("member", &path, DependencyVersionReq::Any);

    let mut index = PackageOnceMap::new();
    let rewritten_identity = pkg("member", &git);
    index.register(&rewritten_identity);
    index.done(&rewritten_identity, VersionsResponse::Found(Vec::new()));

    let provider = PubGrubDependencyProvider::new(Vec::new());
    match provider.rewrite_dependency_source_id(&mut index, &parent, &d) {
        RewriteOutcome::Kept(kept) => {
            assert!(kept.source_id.same_source(&path));
        },
        _ => panic!("empty rewritten set falls back to the declared path"),
    }
}

#[test]
fn rewrite_keeps_non_path_dependencies() {
    let source = registry_source();
    let parent = PackageId::new(String::from("parent"), v(1, 0, 0), source.clone());
    let d = dep("lib", &source, DependencyVersionReq::Any);
    let mut index = PackageOnceMap::new();
    let provider = PubGrubDependencyProvider::new(Vec::new());
    match provider.rewrite_dependency_source_id(&mut index, &parent, &d) {
        RewriteOutcome::Kept(kept) => assert_eq!(kept.name, "lib"),
        _ => panic!("registry dependencies are never rewritten"),
    }
}

#[test]
fn get_dependencies_rejects_self_dependency() {
    let source = registry_source();
    let mut index = PackageOnceMap::new();
    let a = pkg("a", &source);
    index.register(&a);
    let selfish = Summary {
        package_id: PackageId::new(String::from("a"), v(1, 0, 0), source.clone()),
        dependencies: vec![dep("a", &source, DependencyVersionReq::Any)],
    };
    index.done(&a, VersionsResponse::Found(vec![selfish]));

    let root_id = PackageId::new(String::from("a"), v(1, 0, 0), source.clone());
    let mut provider = PubGrubDependencyProvider::new(vec![root_id]);
    match provider.get_dependencies(&mut index, &a, &v(1, 0, 0)) {
        DepsOutcome::Failed(DependencyProviderError::SelfDependency { name, version }) => {
            assert_eq!(name, "a");
            assert_eq!(version, v(1, 0, 0));
        },
        _ => panic!("a package naming itself must fail"),
    }
}

#[test]
fn get_dependencies_builds_constraints_for_best_matches() {
    let source = registry_source();
    let mut index = PackageOnceMap::new();
    let a = pkg("a", &source);
    let b = pkg("b", &source);
    index.register(&a);
    let root = Summary {
        package_id: PackageId::new(String::from("a"), v(1, 0, 0), source.clone()),
        dependencies: vec![dep(
            "b",
            &source,
            DependencyVersionReq::Range {
                lower: ReqBound::Inclusive(v(1, 0, 0)),
                upper: ReqBound::Exclusive(v(2, 0, 0)),
            },
        )],
    };
    index.done(&a, VersionsResponse::Found(vec![root]));
    index.register(&b);
    index.done(
        &b,
        VersionsResponse::Found(vec![
            leaf("b", v(1, 0, 0), &source),
            leaf("b", v(1, 1, 0), &source),
            leaf("b", v(2, 0, 0), &source),
        ]),
    );

    let root_id = PackageId::new(String::from("a"), v(1, 0, 0), source.clone());
    let mut provider = PubGrubDependencyProvider::new(vec![root_id]);
    match provider.get_dependencies(&mut index, &a, &v(1, 0, 0)) {
        DepsOutcome::Available { constraints, .. } => {
            assert_eq!(constraints.len(), 1);
            assert!(constraints[0].0.same_package(&b));
            let sem = |maj: u64, min: u64, pat: u64| semver::Version::new(maj, min, pat);
            assert!(constraints[0].1.contains(&sem(1, 0, 0)));
            assert!(constraints[0].1.contains(&sem(1, 5, 0)));
            assert!(!constraints[0].1.contains(&sem(2, 0, 0)));
        },
        _ => panic!("all metadata was fulfilled"),
    }
}

#[test]
fn prioritize_registers_and_reports_depth() {
    let source = registry_source();
    let mut index = PackageOnceMap::new();
    let root_id = PackageId::new(String::from("a"), v(1, 0, 0), source.clone());
    let provider = PubGrubDependencyProvider::new(vec![root_id]);
    let a = pkg("a", &source);
    let (priority, fresh) = provider.prioritize(&mut index, &a);
    assert!(fresh);
    assert_eq!(priority, Some(PubGrubPriority::Unspecified(0)));
    let (_, fresh_again) = provider.prioritize(&mut index, &a);
    assert!(!fresh_again);

    let unseen = pkg("zzz", &source);
    let (none_priority, _) = provider.prioritize(&mut index, &unseen);
    assert_eq!(none_priority, None);
}

#[test]
fn prime_index_registers_roots_and_dependencies() {
    let source = registry_source();
    let mut index = PackageOnceMap::new();
    let root = Summary {
        package_id: PackageId::new(String::from("a"), v(1, 0, 0), source.clone()),
        dependencies: vec![dep("b", &source, DependencyVersionReq::Any)],
    };
    let requests = prime_index(&mut index, &vec![root]);
    assert_eq!(requests.len(), 2);
    assert!(!index.register(&pkg("a", &source)));
    assert!(!index.register(&pkg("b", &source)));
}

#[test]
fn validate_solution_rejects_one_name_from_two_sources() {
    let registry = registry_source();
    let git = SourceId::new(SourceKind::Git, String::from("git+https://example.test/repo"));
    let solution = vec![
        (pkg("foo", &registry), v(1, 0, 0)),
        (pkg("bar", &registry), v(1, 0, 0)),
        (pkg("foo", &git), v(2, 0, 0)),
    ];
    let err = validate_solution(&solution).expect_err("same name, two sources");
    assert_eq!(err.name, "foo");
    assert!(err.first_source.same_source(&registry));
    assert!(err.second_source.same_source(&git));

    let clean = vec![
        (pkg("foo", &registry), v(1, 0, 0)),
        (pkg("bar", &git), v(1, 0, 0)),
    ];
    assert!(validate_solution(&clean).is_ok());
}

#[test]
fn in_memory_index_serves_both_maps() {
    let source = registry_source();
    let mut index = InMemoryIndex::new();
    let p = pkg("foo", &source);
    assert!(index.packages_mut().register(&p));
    assert!(index.packages().get(&p).is_none());
    index.packages_mut().done(&p, VersionsResponse::Found(vec![leaf("foo", v(1, 0, 0), &source)]));
    assert!(index.packages().get(&p).is_some());

    let id = PackageId::new(String::from("foo"), v(1, 0, 0), source.clone());
    assert!(index.distributions().get(&id).is_none());
    assert!(index.distributions_mut().done(&id, MetadataResponse::Found(leaf("foo", v(1, 0, 0), &source))));
    assert!(!index.distributions_mut().done(&id, MetadataResponse::Found(leaf("foo", v(1, 0, 0), &source))));
    assert!(index.distributions().get(&id).is_some());
}

#[test]
fn custom_incompatibility_carries_its_message() {
    let reason = CustomIncompatibility::new(String::from("locked by a workspace pin"));
    assert_eq!(reason.message(), "locked by a workspace pin");
}

#[test]
fn get_dependencies_drops_dev_edges_of_non_root_packages() {
    let source = registry_source();
    let mut index = PackageOnceMap::new();
    let b = pkg("b", &source);
    index.register(&b);
    let b_summary = Summary {
        package_id: PackageId::new(String::from("b"), v(1, 0, 0), source.clone()),
        dependencies: vec![
            dep("lib", &source, DependencyVersionReq::Any),
            ManifestDependency {
                name: String::from("testkit"),
                source_id: source.clone(),
                version_req: DependencyVersionReq::Any,
                kind: DepKind::Dev,
            },
        ],
    };
    index.done(&b, VersionsResponse::Found(vec![b_summary]));
    index.register(&pkg("lib", &source));
    index.done(
        &pkg("lib", &source),
        VersionsResponse::Found(vec![leaf("lib", v(0, 3, 0), &source)]),
    );

    let root_id = PackageId::new(String::from("a"), v(1, 0, 0), source.clone());
    let mut provider = PubGrubDependencyProvider::new(vec![root_id]);
    match provider.get_dependencies(&mut index, &b, &v(1, 0, 0)) {
        DepsOutcome::Available { constraints, .. } => {
            assert_eq!(constraints.len(), 1);
            assert!(constraints[0].0.same_package(&pkg("lib", &source)));
        },
        _ => panic!("all metadata was fulfilled"),
    }
}
