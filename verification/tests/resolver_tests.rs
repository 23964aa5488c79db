use tstore::models::CommunityListing;
use tstore::models::PackageInfo;
use tstore::models::PackageVersion;
use tstore::refs::parse_dependency_ref;
use tstore::registry::Registry;
use tstore::resolver::process_info;
use tstore::resolver::resolve;
use tstore::resolver::ResolveError;

fn make_package(namespace: &str, name: &str, version: &str, deps: Vec<String>) -> PackageInfo {
    let full_name = format!("{}-{}", namespace, name);
    PackageInfo {
        namespace: namespace.to_string(),
        name: name.to_string(),
        full_name: full_name.clone(),
        owner: namespace.to_string(),
        package_url: format!("https://example.test/package/{}/{}/", namespace, name),
        date_created: "2020-01-01T00:00:00Z".to_string(),
        date_updated: "2020-01-02T00:00:00Z".to_string(),
        rating_score: 0,
        is_pinned: false,
        is_deprecated: false,
        total_downloads: 0,
        latest: PackageVersion {
            namespace: namespace.to_string(),
            name: name.to_string(),
            version_number: version.to_string(),
            full_name: format!("{}-{}", full_name, version),
            description: "a package".to_string(),
            icon: "".to_string(),
            dependencies: deps,
            download_url: format!("https://example.test/download/{}/{}/", full_name, version),
            downloads: 0,
            date_created: "2020-01-01T00:00:00Z".to_string(),
            website_url: "".to_string(),
            is_active: true,
        },
        community_listings: vec![CommunityListing {
            has_nsfw_content: false,
            categories: vec![],
            community: "riskofrain2".to_string(),
        }],
    }
}

fn registry_of(packages: Vec<PackageInfo>) -> Registry {
    let mut registry = Registry::new();
    for p in packages {
        assert!(registry.add(p));
    }
    registry
}

fn resolved_names(out: &Vec<PackageInfo>) -> Vec<String> {
    out.iter().map(|p| p.full_name.clone()).collect()
}

#[test]
fn diamond_resolves_each_package_once() {
    let root = make_package("Root", "App", "1.0.0", vec![
        "Auth-Left-1.0.0".to_string(),
        "Auth-Right-1.0.0".to_string(),
    ]);
    let registry = registry_of(vec![
        root.clone(),
        make_package("Auth", "Left", "1.0.0", vec!["Auth-Shared-1.0.0".to_string()]),
        make_package("Auth", "Right", "1.0.0", vec!["Auth-Shared-1.0.0".to_string()]),
        make_package("Auth", "Shared", "1.0.0", vec![]),
    ]);
    let out = resolve(&root, &registry).unwrap();
    assert_eq!(
        resolved_names(&out),
        vec!["Auth-Shared", "Auth-Left", "Auth-Right", "Root-App"]
    );
}

#[test]
fn cycle_reports_dependency_cycle() {
    let root = make_package("C", "A", "1.0.0", vec!["C-B-1.0.0".to_string()]);
    let registry = registry_of(vec![
        root.clone(),
        make_package("C", "B", "1.0.0", vec!["C-A-1.0.0".to_string()]),
    ]);
    match resolve(&root, &registry) {
        Err(ResolveError::DependencyCycle(k)) => assert_eq!(k, "C-A"),
        other => panic!("expected a dependency cycle, got {:?}", other.is_ok()),
    }
}

#[test]
fn self_cycle_reports_dependency_cycle() {
    let root = make_package("C", "Selfie", "1.0.0", vec!["C-Selfie-1.0.0".to_string()]);
    let registry = registry_of(vec![root.clone()]);
    assert!(matches!(
        resolve(&root, &registry),
        Err(ResolveError::DependencyCycle(_))
    ));
}

#[test]
fn empty_dependencies_resolve_to_root_alone() {
    let root = make_package("Solo", "Pack", "2.1.0", vec![]);
    let registry = registry_of(vec![root.clone()]);
    let out = resolve(&root, &registry).unwrap();
    assert_eq!(out.len(), 1);
    assert_eq!(out[0].full_name, "Solo-Pack");
    assert_eq!(out[0].latest.version_number, "2.1.0");
}

#[test]
fn version_segment_is_discarded_when_fetching() {
    let root = make_package("Root", "App", "1.0.0", vec![
        "SomeAuthor-SomeMod-1.2.3".to_string(),
    ]);
    let registry = registry_of(vec![
        root.clone(),
        make_package("SomeAuthor", "SomeMod", "9.9.9", vec![]),
    ]);
    let out = resolve(&root, &registry).unwrap();
    assert_eq!(resolved_names(&out), vec!["SomeAuthor-SomeMod", "Root-App"]);
}

#[test]
fn parse_dependency_ref_splits_segments() {
    let (author, name) = parse_dependency_ref("SomeAuthor-SomeMod-1.2.3").unwrap();
    assert_eq!(author, "SomeAuthor");
    assert_eq!(name, "SomeMod");
}

#[test]
fn parse_dependency_ref_without_version() {
    let (author, name) = parse_dependency_ref("A-B").unwrap();
    assert_eq!(author, "A");
    assert_eq!(name, "B");
}

#[test]
fn parse_dependency_ref_empty_name_segment() {
    let (author, name) = parse_dependency_ref("a--b").unwrap();
    assert_eq!(author, "a");
    assert_eq!(name, "");
}

#[test]
fn parse_dependency_ref_without_dash_is_malformed() {
    assert!(parse_dependency_ref("nodashatall").is_none());
}

#[test]
fn malformed_reference_aborts_resolution() {
    let root = make_package("Root", "App", "1.0.0", vec!["nodashatall".to_string()]);
    let registry = registry_of(vec![root.clone()]);
    match resolve(&root, &registry) {
        Err(ResolveError::MalformedReference(s)) => assert_eq!(s, "nodashatall"),
        _ => panic!("expected a malformed reference error"),
    }
}

#[test]
fn missing_dependency_reports_not_found() {
    let root = make_package("Root", "App", "1.0.0", vec!["Ghost-Pack-1.0.0".to_string()]);
    let registry = registry_of(vec![root.clone()]);
    match resolve(&root, &registry) {
        Err(ResolveError::NotFound(author, name)) => {
            assert_eq!(author, "Ghost");
            assert_eq!(name, "Pack");
        },
        _ => panic!("expected a not-found error"),
    }
}

#[test]
fn failure_partway_discards_all_resolution_state() {
    let root = make_package("Root", "App", "1.0.0", vec![
        "Auth-Left-1.0.0".to_string(),
        "Ghost-Pack-1.0.0".to_string(),
    ]);
    let registry = registry_of(vec![
        root.clone(),
        make_package("Auth", "Left", "1.0.0", vec![]),
    ]);
    let mut all_infos: Vec<PackageInfo> = vec![];
    let r = process_info(&mut all_infos, root, &registry);
    assert!(r.is_err());
    assert!(all_infos.is_empty());
}

#[test]
fn process_info_appends_closure() {
    let root = make_package("Root", "App", "1.0.0", vec!["Auth-Left-1.0.0".to_string()]);
    let registry = registry_of(vec![
        root.clone(),
        make_package("Auth", "Left", "1.0.0", vec![]),
    ]);
    let mut all_infos: Vec<PackageInfo> = vec![];
    process_info(&mut all_infos, root, &registry).unwrap();
    assert_eq!(resolved_names(&all_infos), vec!["Auth-Left", "Root-App"]);
}

#[test]
fn registry_add_refuses_duplicates_and_mismatches() {
    let mut registry = Registry::new();
    assert!(registry.add(make_package("A", "B", "1.0.0", vec![])));
    // Same full name again.
    assert!(!registry.add(make_package("A", "B", "2.0.0", vec![])));
    // Full name that does not match namespace-name.
    let mut odd = make_package("X", "Y", "1.0.0", vec![]);
    odd.full_name = "Other-Name".to_string();
    assert!(!registry.add(odd));
    // Namespace holding a '-' cannot round-trip through a reference.
    let dashed = make_package("Da-Sh", "Z", "1.0.0", vec![]);
    assert!(!registry.add(dashed));
}

#[test]
fn registry_lookup_finds_by_pair() {
    let registry = registry_of(vec![
        make_package("A", "B", "1.0.0", vec![]),
        make_package("C", "D", "1.0.0", vec![]),
    ]);
    let i = registry.lookup(&"C".to_string(), &"D".to_string()).unwrap();
    assert_eq!(registry.packages[i].full_name, "C-D");
    assert!(registry.lookup(&"C".to_string(), &"B".to_string()).is_none());
}
