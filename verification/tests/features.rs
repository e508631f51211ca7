use cbld::features::{merge_requested_features, package_name, FeatureRequests};
use cbld::manifest::Dependency;

fn dep(features: &[&str]) -> Dependency {
    Dependency {
        version: "1.0".to_string(),
        features: features.iter().map(|f| f.to_string()).collect(),
        tag: None,
    }
}

#[test]
fn package_name_is_the_last_path_segment() {
    assert_eq!(package_name("gh:user/lib"), "lib");
    assert_eq!(package_name("gh:owner/group/repo"), "repo");
    assert_eq!(package_name("plain"), "plain");
}

#[test]
fn requests_are_merged_per_package_without_repeats() {
    let mut into = FeatureRequests::default();
    let root_deps = vec![
        ("gh:a/x".to_string(), dep(&["ssl", "zlib"])),
        ("gh:c/y".to_string(), dep(&[])),
    ];
    merge_requested_features(&mut into, &root_deps);
    let nested = vec![("gh:b/x".to_string(), dep(&["zlib", "brotli", "ssl", "brotli"]))];
    merge_requested_features(&mut into, &nested);
    assert_eq!(into.get("x").unwrap(), &vec!["ssl".to_string(), "zlib".to_string(), "brotli".to_string()]);
    assert!(into.get("y").unwrap().is_empty());
    assert!(into.get("z").is_none());
}
