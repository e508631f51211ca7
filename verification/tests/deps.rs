use cbld::deps::{dep_step, gather_dependencies, link_order, BuiltDependency, DepArtifacts};
use cbld::manifest::Package;

fn package(include_dirs: &[&str]) -> Package {
    Package {
        name: "d".into(),
        version: "1.0.0".into(),
        description: None,
        authors: Vec::new(),
        toolchain: None,
        target: None,
        source_dir: "src".into(),
        include_dirs: include_dirs.iter().map(|s| s.to_string()).collect(),
        defines: Vec::new(),
        libs: Vec::new(),
        pkg_config: Vec::new(),
        ignore_warnings: false,
        kind: None,
        include_globs: Vec::new(),
        exclude: Vec::new(),
    }
}

#[test]
fn header_only_dependency_adds_only_includes() {
    let acc = dep_step(DepArtifacts::new(), "/c/hdr", &package(&["extra"]), None);
    assert_eq!(acc.includes, vec!["/c/hdr/src", "/c/hdr/include", "/c/hdr/extra"]);
    assert!(acc.archives.is_empty());
    assert!(acc.pkg_libs.is_empty());
    assert_eq!(acc.cache_hits, 0);
}

#[test]
fn compiled_dependencies_add_archives_libs_and_cache_hits() {
    let acc = dep_step(
        DepArtifacts::new(),
        "/c/a",
        &package(&[]),
        Some(&BuiltDependency { archive: "/c/a/target/liba.a".into(), cache_hit: true, pkg_libs: vec!["-lz".into()] }),
    );
    let acc = dep_step(acc, "/c/h", &package(&[]), None);
    let acc = dep_step(
        acc,
        "/c/b",
        &package(&[]),
        Some(&BuiltDependency { archive: "/c/b/target/libb.a".into(), cache_hit: false, pkg_libs: vec![] }),
    );
    assert_eq!(acc.includes, vec!["/c/a/src", "/c/a/include", "/c/h/src", "/c/h/include", "/c/b/src", "/c/b/include"]);
    assert_eq!(acc.archives, vec!["/c/a/target/liba.a", "/c/b/target/libb.a"]);
    assert_eq!(acc.pkg_libs, vec!["-lz"]);
    assert_eq!(acc.cache_hits, 1);
    let linked = link_order(acc);
    assert_eq!(linked.archives, vec!["/c/b/target/libb.a", "/c/a/target/liba.a"]);
    assert_eq!(linked.cache_hits, 1);
}

#[test]
fn gathering_all_dependencies_reverses_archives_for_linking() {
    let steps = vec![
        (
            "/c/a".to_string(),
            package(&["inc"]),
            Some(BuiltDependency { archive: "/c/a/liba.a".into(), cache_hit: true, pkg_libs: vec!["-lz".into()] }),
        ),
        ("/c/h".to_string(), package(&[]), None),
        (
            "/c/b".to_string(),
            package(&[]),
            Some(BuiltDependency { archive: "/c/b/libb.a".into(), cache_hit: true, pkg_libs: vec!["-lm".into()] }),
        ),
        (
            "/c/c".to_string(),
            package(&[]),
            Some(BuiltDependency { archive: "/c/c/libc.a".into(), cache_hit: false, pkg_libs: vec![] }),
        ),
    ];
    let all = gather_dependencies(&steps);
    assert_eq!(
        all.includes,
        vec![
            "/c/a/src", "/c/a/include", "/c/a/inc", "/c/h/src", "/c/h/include", "/c/b/src", "/c/b/include",
            "/c/c/src", "/c/c/include"
        ]
    );
    assert_eq!(all.archives, vec!["/c/c/libc.a", "/c/b/libb.a", "/c/a/liba.a"]);
    assert_eq!(all.pkg_libs, vec!["-lz", "-lm"]);
    assert_eq!(all.cache_hits, 2);
    assert!(gather_dependencies(&[]).archives.is_empty());
}
