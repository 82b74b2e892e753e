use nrm::check::{check_dependency, check_lock, is_dep_match_registry, CheckError, Mismatch};
use nrm::lock::{is_empty_dependencies, Dependency, Lockfile};
use std::collections::HashMap;

fn with_resolved(resolved: Option<String>) -> Dependency {
    Dependency {
        version: "1.0.0".to_string(),
        resolved,
        integrity: None,
        dependencies: None,
        passthrough: HashMap::new(),
    }
}

fn with_dependencies(dependencies: Option<Vec<(String, Dependency)>>) -> Dependency {
    Dependency {
        version: "1.0.0".to_string(),
        resolved: None,
        integrity: None,
        dependencies,
        passthrough: HashMap::new(),
    }
}

fn from_url(url: &str, dependencies: Option<Vec<(String, Dependency)>>) -> Dependency {
    Dependency {
        version: "1.0.0".to_string(),
        resolved: Some(url.to_string()),
        integrity: None,
        dependencies,
        passthrough: HashMap::new(),
    }
}

fn lockfile(version: u8, dependencies: Vec<(String, Dependency)>) -> Lockfile {
    Lockfile { lockfile_version: version, passthrough: HashMap::new(), dependencies }
}

const REGISTRY: &str = "https://registry.npmjs.org";

#[test]
fn test_is_dep_match_registry() {
    assert!(is_dep_match_registry(&with_resolved(None), ""));
    assert!(!is_dep_match_registry(
        &with_resolved(Some("https://registry.npm.taobao.org/react-17.0.0.tgz".to_string())),
        "https://registry.npmjs.org"
    ));
    assert!(is_dep_match_registry(
        &with_resolved(Some("https://registry.npmjs.org/react-17.0.0.tgz".to_string())),
        "https://registry.npmjs.org"
    ));
}

#[test]
fn dep_match_ignores_what_is_nested() {
    let nested = vec![("b".to_string(), from_url("https://other/b.tgz", None))];
    let dep = from_url("https://registry.npmjs.org/a.tgz", Some(nested));
    assert!(is_dep_match_registry(&dep, REGISTRY));
}

#[test]
fn dep_match_with_empty_registry_and_equal_url() {
    assert!(is_dep_match_registry(&from_url("https://x/a.tgz", None), ""));
    assert!(is_dep_match_registry(&from_url(REGISTRY, None), REGISTRY));
    assert!(!is_dep_match_registry(&from_url("https://registry.npmjs.or", None), REGISTRY));
    assert!(!is_dep_match_registry(&from_url("", None), REGISTRY));
}

#[test]
fn dep_match_compares_characters_beyond_ascii() {
    assert!(is_dep_match_registry(&from_url("https://régistry/a.tgz", None), "https://rég"));
    assert!(!is_dep_match_registry(&from_url("https://registry/a.tgz", None), "https://rég"));
    assert!(!is_dep_match_registry(&from_url("https://rÃ", None), "https://ré"));
}

#[test]
fn check_passes_when_every_url_matches_at_every_depth() {
    let c = from_url("https://registry.npmjs.org/c/-/c-1.0.0.tgz", None);
    let b = from_url("https://registry.npmjs.org/b/-/b-1.0.0.tgz", Some(vec![("c".to_string(), c)]));
    let local = with_dependencies(Some(vec![("b".to_string(), b)]));
    let a = from_url("https://registry.npmjs.org/a/-/a-1.0.0.tgz", None);
    let lock = lockfile(1, vec![("a".to_string(), a), ("local".to_string(), local)]);
    assert_eq!(check_lock(&lock, REGISTRY), Ok(()));
}

#[test]
fn check_passes_on_a_lockfile_without_dependencies() {
    assert_eq!(check_lock(&lockfile(1, Vec::new()), REGISTRY), Ok(()));
}

#[test]
fn check_names_the_one_mismatch_deep_in_the_tree() {
    let c = from_url("https://registry.npm.taobao.org/c/-/c-1.0.0.tgz", None);
    let b = from_url("https://registry.npmjs.org/b/-/b-1.0.0.tgz", Some(vec![("c".to_string(), c)]));
    let local = with_dependencies(Some(vec![("b".to_string(), b)]));
    let a = from_url("https://registry.npmjs.org/a/-/a-1.0.0.tgz", None);
    let lock = lockfile(1, vec![("a".to_string(), a), ("local".to_string(), local)]);
    let expected = vec![Mismatch {
        package: "c".to_string(),
        path: vec!["local".to_string(), "b".to_string()],
    }];
    assert_eq!(check_lock(&lock, REGISTRY), Err(CheckError::OtherRegistries(expected)));
}

#[test]
fn check_reports_every_mismatch_in_order() {
    let c = from_url("https://other/c.tgz", None);
    let b = from_url("https://other/b.tgz", Some(vec![("c".to_string(), c)]));
    let a = from_url("https://registry.npmjs.org/a.tgz", Some(vec![("b".to_string(), b)]));
    let z = from_url("https://other/z.tgz", None);
    let lock = lockfile(1, vec![("a".to_string(), a), ("z".to_string(), z)]);
    let expected = vec![
        Mismatch { package: "b".to_string(), path: vec!["a".to_string()] },
        Mismatch { package: "c".to_string(), path: vec!["a".to_string(), "b".to_string()] },
        Mismatch { package: "z".to_string(), path: Vec::new() },
    ];
    assert_eq!(check_lock(&lock, REGISTRY), Err(CheckError::OtherRegistries(expected)));
}

#[test]
fn check_refuses_other_schema_versions() {
    let a = from_url("https://registry.npmjs.org/a.tgz", None);
    assert_eq!(
        check_lock(&lockfile(2, vec![("a".to_string(), a)]), REGISTRY),
        Err(CheckError::UnsupportedVersion)
    );
    assert_eq!(check_lock(&lockfile(0, Vec::new()), REGISTRY), Err(CheckError::UnsupportedVersion));
}

#[test]
fn check_leaves_the_lockfile_as_it_is() {
    let build = || {
        let b = from_url("https://other/b.tgz", None);
        let a = from_url("https://registry.npmjs.org/a.tgz", Some(vec![("b".to_string(), b)]));
        lockfile(3, vec![("a".to_string(), a)])
    };
    let lock = build();
    let _ = check_lock(&lock, REGISTRY);
    assert_eq!(lock, build());
}

#[test]
fn check_error_messages() {
    assert_eq!(CheckError::UnsupportedVersion.message(), "Only version 1 of lockfile is supported.");
    assert_eq!(
        CheckError::OtherRegistries(Vec::new()).message(),
        "This lockfile contains some packages from other registries."
    );
}

#[test]
fn check_dependency_adds_to_the_mismatches_and_restores_the_path() {
    let c = from_url("https://other/c.tgz", None);
    let b = from_url("https://other/b.tgz", Some(vec![("c".to_string(), c)]));
    let mut path = vec!["root".to_string()];
    let mut found = vec![Mismatch { package: "earlier".to_string(), path: Vec::new() }];
    let ok = check_dependency(&b, REGISTRY, "b", &mut path, &mut found);
    assert!(!ok);
    assert_eq!(path, vec!["root".to_string()]);
    assert_eq!(
        found,
        vec![
            Mismatch { package: "earlier".to_string(), path: Vec::new() },
            Mismatch { package: "b".to_string(), path: vec!["root".to_string()] },
            Mismatch {
                package: "c".to_string(),
                path: vec!["root".to_string(), "b".to_string()]
            },
        ]
    );
}

#[test]
fn check_dependency_passes_a_matching_subtree() {
    let c = with_resolved(None);
    let b = from_url("https://registry.npmjs.org/b.tgz", Some(vec![("c".to_string(), c)]));
    let mut path = Vec::new();
    let mut found = Vec::new();
    assert!(check_dependency(&b, REGISTRY, "b", &mut path, &mut found));
    assert!(found.is_empty());
    assert!(path.is_empty());
}

#[test]
fn empty_dependencies_are_none_or_an_empty_list() {
    assert!(is_empty_dependencies(&None));
    assert!(is_empty_dependencies(&Some(Vec::new())));
    assert!(!is_empty_dependencies(&Some(vec![("a".to_string(), with_resolved(None))])));
}
