use scarb_resolver::pkg::{DepKind, DependencyFilter, ManifestDependency, PackageId, PubGrubPackage, Summary};
use scarb_resolver::provider::PubGrubPriority;
use scarb_resolver::requirement::{DependencyVersionReq, ReqBound};
use scarb_resolver::rpc::{defined, load_plugins, ErrResponse, PluginDescriptor};
use scarb_resolver::source::{SourceId, SourceKind};
use scarb_resolver::version::PackageVersion;

fn registry_source() -> SourceId {
    SourceId::new(SourceKind::Registry, String::from("registry+https://example.test/index"))
}

fn v(major: u64, minor: u64, patch: u64) -> PackageVersion {
    PackageVersion::new(major, minor, patch)
}

#[test]
fn version_order_is_lexicographic() {
    assert!(v(1, 0, 0).lt(&v(1, 0, 1)));
    assert!(v(1, 0, 9).lt(&v(1, 1, 0)));
    assert!(v(1, 9, 9).lt(&v(2, 0, 0)));
    assert!(!v(2, 0, 0).lt(&v(1, 9, 9)));
    assert!(v(1, 2, 3).le(&v(1, 2, 3)));
    assert!(!v(1, 2, 4).le(&v(1, 2, 3)));
}

#[test]
fn requirement_matching() {
    let caret_one = DependencyVersionReq::Range {
        lower: ReqBound::Inclusive(v(1, 0, 0)),
        upper: ReqBound::Exclusive(v(2, 0, 0)),
    };
    assert!(caret_one.matches(&v(1, 0, 0)));
    assert!(caret_one.matches(&v(1, 9, 3)));
    assert!(!caret_one.matches(&v(2, 0, 0)));
    assert!(!caret_one.matches(&v(0, 9, 9)));

    assert!(DependencyVersionReq::Any.matches(&v(0, 0, 0)));
    assert!(DependencyVersionReq::Any.matches(&v(99, 0, 0)));

    let locked = DependencyVersionReq::Locked { exact: v(1, 4, 2) };
    assert!(locked.matches(&v(1, 4, 2)));
    assert!(!locked.matches(&v(1, 4, 3)));

    let exact = DependencyVersionReq::exact(&v(3, 1, 4));
    assert!(exact.matches(&v(3, 1, 4)));
    assert!(!exact.matches(&v(3, 1, 5)));
    assert!(!exact.matches(&v(3, 1, 3)));
}

#[test]
fn identities_distinguish_sources() {
    let registry = registry_source();
    let git = SourceId::new(SourceKind::Git, String::from("git+https://example.test/repo"));
    let a = PubGrubPackage { name: String::from("foo"), source_id: registry.clone() };
    let b = PubGrubPackage { name: String::from("foo"), source_id: git.clone() };
    let c = PubGrubPackage { name: String::from("foo"), source_id: registry.clone() };
    assert!(!a.same_package(&b));
    assert!(a.same_package(&c));
    assert!(git.is_git());
    assert!(!git.is_path());
    assert!(!registry.is_git());
}

#[test]
fn dependency_filter_drops_dev_edges_for_transitive_packages() {
    let registry = registry_source();
    let normal = ManifestDependency {
        name: String::from("lib"),
        source_id: registry.clone(),
        version_req: DependencyVersionReq::Any,
        kind: DepKind::Normal,
    };
    let dev = ManifestDependency {
        name: String::from("testkit"),
        source_id: registry.clone(),
        version_req: DependencyVersionReq::Any,
        kind: DepKind::Dev,
    };
    let summary = Summary {
        package_id: PackageId::new(String::from("pkg"), v(1, 0, 0), registry.clone()),
        dependencies: vec![normal, dev],
    };

    let all = summary.filtered_full_dependencies(&DependencyFilter::propagation(true));
    assert_eq!(all.len(), 2);

    let transitive = summary.filtered_full_dependencies(&DependencyFilter::propagation(false));
    assert_eq!(transitive.len(), 1);
    assert_eq!(transitive[0].name, "lib");
}

#[test]
fn priority_ranking() {
    let root = PubGrubPriority::Root;
    let shallow = PubGrubPriority::Unspecified(1);
    let deep = PubGrubPriority::Unspecified(5);
    assert!(root.outranks(&shallow));
    assert!(shallow.outranks(&deep));
    assert!(!deep.outranks(&shallow));
    assert!(!shallow.outranks(&shallow));
    assert!(PubGrubPriority::DirectUrl(9).outranks(&PubGrubPriority::Singleton(0)));
}

#[test]
fn err_response_keeps_message() {
    let e = ErrResponse::new(String::from("method not found"));
    assert_eq!(e.message(), "method not found");
}

#[test]
fn defined_flattens_in_order() {
    let groups = vec![
        vec![String::from("inline")],
        vec![],
        vec![String::from("derive_a"), String::from("derive_b")],
    ];
    let names = defined(groups);
    assert_eq!(names, vec!["inline", "derive_a", "derive_b"]);
}

#[test]
fn load_plugins_skips_builtin() {
    let plugins = vec![
        PluginDescriptor { name: String::from("builtin_macro"), builtin: true },
        PluginDescriptor { name: String::from("user_macro"), builtin: false },
    ];
    let loaded = load_plugins(plugins);
    assert_eq!(loaded.len(), 1);
    assert_eq!(loaded[0].name, "user_macro");
}
