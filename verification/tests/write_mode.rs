use nrm::check::check_lock;
use nrm::integrity::{compute_sha1_ssri, fill_missing_ssri, missing_ssri, ComputedSsri};
use nrm::lock::{Dependency, Lockfile};
use nrm::npm::{gather_packages_info, Dist, ManifestCache, PackageInfo, PackageManifest};
use nrm::packages::{collect_packages, wanted_packages, Packages};
use nrm::rewrite::{rewrite_dependencies, rewrite_dependency, update_lock, NotFound};
use std::collections::HashMap;

fn with_resolved(resolved: Option<String>) -> Dependency {
    Dependency {
        version: "1.0.0".to_string(),
        resolved,
        integrity: None,
        dependencies: None,
        passthrough: HashMap::new(),
    }
}

fn with_dependencies(dependencies: Option<Vec<(String, Dependency)>>) -> Dependency {
    Dependency {
        version: "1.0.0".to_string(),
        resolved: None,
        integrity: None,
        dependencies,
        passthrough: HashMap::new(),
    }
}

fn version(mut dependency: Dependency, version: &str) -> Dependency {
    dependency.version = version.to_string();
    dependency
}

fn dep(
    version: &str,
    resolved: Option<&str>,
    integrity: Option<&str>,
    dependencies: Option<Vec<(String, Dependency)>>,
) -> Dependency {
    Dependency {
        version: version.to_string(),
        resolved: resolved.map(|s| s.to_string()),
        integrity: integrity.map(|s| s.to_string()),
        dependencies,
        passthrough: HashMap::new(),
    }
}

fn named(name: &str, dependency: Dependency) -> (String, Dependency) {
    (name.to_string(), dependency)
}

fn manifest(tarball: &str, integrity: Option<&str>) -> PackageManifest {
    PackageManifest {
        dist: Dist { tarball: tarball.to_string(), integrity: integrity.map(|s| s.to_string()) },
    }
}

fn info(versions: &[(&str, &str, Option<&str>)]) -> PackageInfo {
    let mut info = PackageInfo::new();
    for (version, tarball, integrity) in versions {
        info.insert(version.to_string(), manifest(tarball, *integrity));
    }
    info
}

fn lockfile(version: u8, dependencies: Vec<(String, Dependency)>) -> Lockfile {
    let mut passthrough = HashMap::new();
    passthrough.insert("name".to_string(), serde_json::Value::from("project"));
    passthrough.insert("requires".to_string(), serde_json::Value::from(true));
    Lockfile { lockfile_version: version, passthrough, dependencies }
}

fn listed(packages: &Packages) -> Vec<(String, Vec<String>)> {
    let (names, sets) = packages.entries();
    let mut listed = names
        .iter()
        .zip(sets.iter())
        .map(|(name, versions)| (name.clone(), versions.items().clone()))
        .collect::<Vec<_>>();
    listed.sort();
    listed
}

/// The registry `https://new` with `a@1.0.0` (integrity given) and
/// `b@2.0.0` (no integrity).
fn new_registry() -> ManifestCache {
    let mut cache = ManifestCache::new();
    cache.insert(
        "a".to_string(),
        info(&[("1.0.0", "https://new/a/-/a-1.0.0.tgz", Some("sha512-AAAA"))]),
    );
    cache.insert("b".to_string(), info(&[("2.0.0", "https://new/b/-/b-2.0.0.tgz", None)]));
    cache
}

fn a_with_child_b() -> Vec<(String, Dependency)> {
    let b = dep("2.0.0", Some("https://old/b-2.0.0.tgz"), Some("sha1-oldb"), None);
    let a = dep("1.0.0", Some("https://old/a-1.0.0.tgz"), None, Some(vec![named("b", b)]));
    vec![named("a", a)]
}

#[test]
fn test_collect_packages() {
    let mut pkg_a = Vec::new();
    let pkg_b = Vec::new();
    let mut pkg_c = Vec::new();
    pkg_c.push(("d".to_string(), version(with_resolved(None), "4.0.0")));
    pkg_a.push(("b".to_string(), version(with_dependencies(Some(pkg_b)), "2.0.0")));
    pkg_a.push(("c".to_string(), version(with_dependencies(Some(pkg_c)), "3.0.0")));

    let expected = [("b", &["2.0.0"] as &[&str]), ("c", &["3.0.0"]), ("d", &["4.0.0"])];
    let packages = listed(&collect_packages(&pkg_a, Packages::new()));

    assert_eq!(packages.len(), expected.len());
    packages.iter().zip(expected.iter()).for_each(|(actual, expected)| {
        assert_eq!(actual.0, expected.0);
        assert_eq!(&actual.1, expected.1);
    })
}

#[test]
fn collect_packages_adds_to_what_was_collected() {
    let mut before = Packages::new();
    before.add("z", "0.1.0");
    before.add("b", "1.9.9");
    let deps = vec![named("b", dep("2.0.0", None, None, None))];
    assert_eq!(
        listed(&collect_packages(&deps, before)),
        vec![
            ("b".to_string(), vec!["1.9.9".to_string(), "2.0.0".to_string()]),
            ("z".to_string(), vec!["0.1.0".to_string()]),
        ]
    );
    assert!(listed(&collect_packages(&Vec::new(), Packages::new())).is_empty());
}

#[test]
fn a_package_named_at_two_places_is_fetched_once() {
    let deep = dep("1.0.0", Some("https://old/shared-1.0.0.tgz"), None, None);
    let other = dep("2.0.0", Some("https://old/shared-2.0.0.tgz"), None, None);
    let a = dep("1.0.0", Some("https://old/a.tgz"), None, Some(vec![named("shared", deep)]));
    let b = dep("1.0.0", Some("https://old/b.tgz"), None, Some(vec![named("shared", other)]));
    let top = dep("1.0.0", Some("https://old/shared-1.0.0.tgz"), None, None);
    let lock = lockfile(1, vec![named("a", a), named("b", b), named("shared", top)]);
    let packages = wanted_packages(&lock);
    assert_eq!(
        packages.names(),
        &vec!["a".to_string(), "shared".to_string(), "b".to_string()]
    );
    assert_eq!(
        listed(&packages),
        vec![
            ("a".to_string(), vec!["1.0.0".to_string()]),
            ("b".to_string(), vec!["1.0.0".to_string()]),
            ("shared".to_string(), vec!["1.0.0".to_string(), "2.0.0".to_string()]),
        ]
    );
}

#[test]
fn other_schema_versions_come_back_unchanged() {
    for schema in [0u8, 2, 3, 255] {
        let (out, skipped) = update_lock(lockfile(schema, a_with_child_b()), &new_registry());
        assert_eq!(out, lockfile(schema, a_with_child_b()));
        assert!(skipped.is_empty());
        assert!(wanted_packages(&lockfile(schema, a_with_child_b())).names().is_empty());
    }
}

#[test]
fn a_dependency_without_url_keeps_its_fields_at_any_depth() {
    let mut extra = HashMap::new();
    extra.insert("dev".to_string(), serde_json::Value::from(true));
    extra.insert("requires".to_string(), serde_json::Value::from(vec!["x", "y"]));
    let build = |resolved_child: Dependency| {
        let leaf = Dependency {
            version: "1.0.0".to_string(),
            resolved: None,
            integrity: Some("sha1-kept".to_string()),
            dependencies: None,
            passthrough: extra.clone(),
        };
        let linked = Dependency {
            version: "file:../a".to_string(),
            resolved: None,
            integrity: None,
            dependencies: Some(vec![named("a", leaf), named("b", resolved_child)]),
            passthrough: extra.clone(),
        };
        vec![named("linked", dep("0.0.1", None, None, Some(vec![named("a", linked)])))]
    };
    let given = build(dep("2.0.0", Some("https://old/b-2.0.0.tgz"), None, None));
    let expected = build(dep("2.0.0", Some("https://new/b/-/b-2.0.0.tgz"), None, None));
    let (out, skipped) = update_lock(lockfile(1, given), &new_registry());
    assert_eq!(out, lockfile(1, expected));
    assert!(skipped.is_empty());
}

#[test]
fn a_tree_without_urls_is_unchanged() {
    let build = || {
        let b = dep("2.0.0", None, Some("sha1-b"), None);
        vec![named("a", dep("1.0.0", None, None, Some(vec![named("b", b)])))]
    };
    let (out, skipped) = update_lock(lockfile(1, build()), &new_registry());
    assert_eq!(out, lockfile(1, build()));
    assert!(skipped.is_empty());
}

#[test]
fn both_levels_point_at_the_new_registry_with_integrity() {
    let lock = lockfile(1, a_with_child_b());
    let packages = wanted_packages(&lock);
    let fetched = packages
        .names()
        .iter()
        .map(|name| (name.clone(), new_registry().get(name).map(|_| new_info(name))))
        .collect::<Vec<_>>();
    let mut cache = gather_packages_info(fetched);
    let computed = missing_ssri(&packages, &cache)
        .into_iter()
        .map(|m| {
            assert_eq!(m.tarball, "https://new/b/-/b-2.0.0.tgz");
            ComputedSsri {
                package: m.package,
                version: m.version,
                ssri: compute_sha1_ssri(b"tarball of b"),
            }
        })
        .collect::<Vec<_>>();
    assert_eq!(computed.len(), 1);
    fill_missing_ssri(&mut cache, computed);
    let (out, skipped) = update_lock(lock, &cache);
    assert!(skipped.is_empty());

    let b = dep(
        "2.0.0",
        Some("https://new/b/-/b-2.0.0.tgz"),
        Some("sha1-0TySTfzACQxsb+wWYzNk6Qv3Uy4="),
        None,
    );
    let a = dep(
        "1.0.0",
        Some("https://new/a/-/a-1.0.0.tgz"),
        Some("sha512-AAAA"),
        Some(vec![named("b", b)]),
    );
    assert_eq!(out, lockfile(1, vec![named("a", a)]));

    let a = &out.dependencies[0].1;
    let b = &a.dependencies.as_ref().unwrap()[0].1;
    for rewritten in [a, b] {
        assert!(rewritten.resolved.as_ref().unwrap().starts_with("https://new"));
        assert!(!rewritten.integrity.as_ref().unwrap().is_empty());
    }
    assert_eq!(check_lock(&out, "https://new"), Ok(()));
}

fn new_info(name: &str) -> PackageInfo {
    match name {
        "a" => info(&[("1.0.0", "https://new/a/-/a-1.0.0.tgz", Some("sha512-AAAA"))]),
        _ => info(&[("2.0.0", "https://new/b/-/b-2.0.0.tgz", None)]),
    }
}

#[test]
fn the_integrity_of_the_manifest_replaces_the_old_one() {
    let given = dep("2.0.0", Some("https://old/b-2.0.0.tgz"), Some("sha1-oldb"), None);
    let mut skipped = Vec::new();
    let out = rewrite_dependency(&new_registry(), "b", given, &mut skipped);
    assert_eq!(out, dep("2.0.0", Some("https://new/b/-/b-2.0.0.tgz"), None, None));
    assert!(skipped.is_empty());
}

#[test]
fn rewriting_twice_changes_nothing_more() {
    let missing = dep("3.0.0", Some("https://old/c-3.0.0.tgz"), Some("sha1-c"), None);
    let mut given = a_with_child_b();
    given.push(named("c", missing));
    given.push(named("local", dep("1.0.0", None, None, Some(a_with_child_b()))));
    let (once, first) = update_lock(lockfile(1, given), &new_registry());
    let again = Lockfile {
        lockfile_version: once.lockfile_version,
        passthrough: once.passthrough.clone(),
        dependencies: rewrite_dependencies(&new_registry(), copy(&once.dependencies), &mut Vec::new()),
    };
    assert_eq!(again, once);
    let (twice, second) = update_lock(again, &new_registry());
    assert_eq!(twice, once);
    assert_eq!(first, second);
}

fn copy(dependencies: &Vec<(String, Dependency)>) -> Vec<(String, Dependency)> {
    dependencies
        .iter()
        .map(|(name, d)| {
            (
                name.clone(),
                Dependency {
                    version: d.version.clone(),
                    resolved: d.resolved.clone(),
                    integrity: d.integrity.clone(),
                    dependencies: d.dependencies.as_ref().map(copy),
                    passthrough: d.passthrough.clone(),
                },
            )
        })
        .collect()
}

#[test]
fn a_missing_package_is_skipped_and_its_siblings_are_rewritten() {
    let build_gone = || {
        let below = dep("2.0.0", Some("https://old/b-2.0.0.tgz"), Some("sha1-oldb"), None);
        dep("9.0.0", Some("https://old/gone-9.0.0.tgz"), Some("sha1-gone"), Some(vec![named("b", below)]))
    };
    let wrong_version = || dep("1.0.1", Some("https://old/a-1.0.1.tgz"), None, None);
    let mut given = a_with_child_b();
    given.push(named("gone", build_gone()));
    given.push(named("b", dep("2.0.0", Some("https://old/b-2.0.0.tgz"), None, None)));
    given.push(named("nest", dep("1.0.0", None, None, Some(vec![named("a", wrong_version())]))));

    let (out, skipped) = update_lock(lockfile(1, given), &new_registry());

    let b = dep("2.0.0", Some("https://new/b/-/b-2.0.0.tgz"), None, None);
    let a = dep(
        "1.0.0",
        Some("https://new/a/-/a-1.0.0.tgz"),
        Some("sha512-AAAA"),
        Some(vec![named("b", b)]),
    );
    let expected = vec![
        named("a", a),
        named("gone", build_gone()),
        named("b", dep("2.0.0", Some("https://new/b/-/b-2.0.0.tgz"), None, None)),
        named("nest", dep("1.0.0", None, None, Some(vec![named("a", wrong_version())]))),
    ];
    assert_eq!(out, lockfile(1, expected));
    assert_eq!(
        skipped,
        vec![
            NotFound { package: "gone".to_string(), version: "9.0.0".to_string() },
            NotFound { package: "a".to_string(), version: "1.0.1".to_string() },
        ]
    );
}

#[test]
fn skipped_dependencies_are_added_to_those_recorded() {
    let mut skipped = vec![NotFound { package: "x".to_string(), version: "0".to_string() }];
    let given = dep("1.0.0", Some("https://old/q.tgz"), None, None);
    let out = rewrite_dependency(&ManifestCache::new(), "q", given, &mut skipped);
    assert_eq!(out, dep("1.0.0", Some("https://old/q.tgz"), None, None));
    assert_eq!(
        skipped,
        vec![
            NotFound { package: "x".to_string(), version: "0".to_string() },
            NotFound { package: "q".to_string(), version: "1.0.0".to_string() },
        ]
    );
}

#[test]
fn a_dependency_without_url_is_not_looked_up() {
    let child = dep("2.0.0", Some("https://old/b-2.0.0.tgz"), None, None);
    let given = dep("0.0.0", None, None, Some(vec![named("b", child)]));
    let mut skipped = Vec::new();
    let out = rewrite_dependency(&new_registry(), "not-in-registry", given, &mut skipped);
    let child = dep("2.0.0", Some("https://new/b/-/b-2.0.0.tgz"), None, None);
    assert_eq!(out, dep("0.0.0", None, None, Some(vec![named("b", child)])));
    assert!(skipped.is_empty());
}

#[test]
fn the_lockfile_keeps_what_it_carries_through() {
    let (out, _) = update_lock(lockfile(1, a_with_child_b()), &new_registry());
    assert_eq!(out.lockfile_version, 1);
    assert_eq!(out.passthrough.get("name"), Some(&serde_json::Value::from("project")));
    assert_eq!(out.passthrough.len(), 2);
    let (empty, skipped) = update_lock(lockfile(1, Vec::new()), &new_registry());
    assert_eq!(empty, lockfile(1, Vec::new()));
    assert!(skipped.is_empty());
}
