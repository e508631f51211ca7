use cbld::error::CbldError;
use cbld::features::{merge_requested_features, FeatureRequests};
use cbld::manifest::Dependency;
use cbld::vendor::{apply_requested_features, check_direct_dependencies, resolve_vendored, LockedDependency};

fn locked(name: &str) -> LockedDependency {
    LockedDependency {
        name: name.to_string(),
        source: format!("git+https://example.com/user/{name}.git"),
        checksum: "deadbeef".to_string(),
        version: "1.0".to_string(),
        dependencies: Vec::new(),
    }
}

fn direct(shorthand: &str, features: &[&str]) -> Vec<(String, Dependency)> {
    vec![(
        shorthand.to_string(),
        Dependency {
            version: "1.0".to_string(),
            features: features.iter().map(|f| f.to_string()).collect(),
            tag: None,
        },
    )]
}

#[test]
fn vendored_dependencies_errors_when_lock_is_missing() {
    let err = resolve_vendored("/proj", None, &["lib".to_string()]).unwrap_err();
    assert!(err.message().contains("cbld.lock"));
}

#[test]
fn vendored_dependencies_resolves_from_local_copies_and_lock_metadata() {
    let lock = vec![locked("lib")];
    let resolved = resolve_vendored("/proj", Some(&lock), &["lib".to_string()]).unwrap();
    assert_eq!(resolved.len(), 1);
    let dep = &resolved[0];
    assert_eq!(dep.name, "lib");
    assert_eq!(dep.checksum, "deadbeef");
    assert_eq!(dep.cache_path, "/proj/third_party/lib");
    assert_eq!(dep.url, "https://example.com/user/lib.git");
    assert!(check_direct_dependencies(&direct("gh:user/lib", &[]), &resolved).is_ok());
}

#[test]
fn vendored_dependencies_errors_when_a_dependency_directory_is_missing() {
    let lock = vec![locked("lib")];
    let err = resolve_vendored("/proj", Some(&lock), &["other".to_string()]).unwrap_err();
    assert!(err.message().contains("third_party/lib"));
}

#[test]
fn direct_dependency_without_lock_entry_is_reported() {
    let lock = vec![locked("lib")];
    let resolved = resolve_vendored("/proj", Some(&lock), &["lib".to_string()]).unwrap();
    match check_direct_dependencies(&direct("gh:user/other", &[]), &resolved) {
        Err(CbldError::Config(m)) => assert_eq!(m, "vendored dependency 'other' has no entry in cbld.lock"),
        other => panic!("unexpected: {:?}", other),
    }
}

#[test]
fn requested_features_reach_the_first_dependency_of_each_name() {
    let lock = vec![locked("a"), locked("b"), locked("a")];
    let present = vec!["a".to_string(), "b".to_string()];
    let resolved = resolve_vendored("/proj", Some(&lock), &present).unwrap();
    let mut requests = FeatureRequests::default();
    merge_requested_features(&mut requests, &direct("gh:x/a", &["ssl", "zlib"]));
    let resolved = apply_requested_features(resolved, &mut requests);
    assert_eq!(resolved[0].features, vec!["ssl", "zlib"]);
    assert!(resolved[1].features.is_empty());
    assert!(resolved[2].features.is_empty());
    assert!(requests.get("a").is_none());
}

#[test]
fn update_names_a_dependency_by_package_name() {
    let lock = vec![locked("json"), locked("fmt")];
    let present = vec!["json".to_string(), "fmt".to_string()];
    let resolved = resolve_vendored("/proj", Some(&lock), &present).unwrap();
    assert_eq!(cbld::vendor::update_target(&resolved, "gh:fmtlib/fmt").unwrap(), 1);
    assert_eq!(cbld::vendor::update_target(&resolved, "json").unwrap(), 0);
    match cbld::vendor::update_target(&resolved, "gh:x/nope") {
        Err(CbldError::Resolution(m)) => assert_eq!(
            m,
            "'gh:x/nope' is not a dependency of this package (use the package name, e.g. the last segment of gh:owner/repo)"
        ),
        other => panic!("unexpected: {:?}", other),
    }
}

#[test]
fn update_of_one_package_resolves_it_afresh_and_pins_the_rest() {
    let lock = vec![locked("json"), locked("fmt")];
    let present = vec!["json".to_string(), "fmt".to_string()];
    let resolved = resolve_vendored("/proj", Some(&lock), &present).unwrap();
    let q = cbld::vendor::reresolution_request(&resolved, "gh:fmtlib/fmt").unwrap();
    assert_eq!(q.position, 1);
    assert_eq!(q.shorthand, resolved[1].shorthand);
    assert_eq!(q.spec.version, resolved[1].version);
    assert_eq!(q.spec.features, resolved[1].features);
    assert!(q.spec.tag.is_none());
    assert!(matches!(
        cbld::vendor::reresolution_request(&resolved, "nope"),
        Err(CbldError::Resolution(_))
    ));
    assert_eq!(cbld::vendor::update_pin(Some("fmt"), Some(7)), Some(7));
    assert_eq!(cbld::vendor::update_pin(None, Some(7)), None);
}
