use cbld::error::CbldError;
use cbld::manifest::{Manifest, Package};
use cbld::recipe::{looks_like_toml, PackageIndex, Recipe};

fn url_recipe(url: &str) -> Recipe {
    Recipe {
        git: Some(url.to_string()),
        ..Recipe::default()
    }
}

#[test]
fn builtin_recipes_cover_the_three_ci_packages() {
    let idx = PackageIndex::builtin();
    let json = idx.get("gh:nlohmann/json").expect("nlohmann/json recipe");
    assert_eq!(json.kind.as_deref(), Some("header"));
    assert!(json.is_overlay());
    let names = idx.overlay_shorthands();
    assert_eq!(names.len(), 3);
    assert!(names.iter().any(|s| s == "gh:nlohmann/json"));

    let cjson = idx.get("gh:DaveGamble/cJSON").expect("cJSON recipe");
    assert_eq!(cjson.kind.as_deref(), Some("lib"));
    assert_eq!(cjson.source_dir.as_deref(), Some("."));
    assert_eq!(cjson.include_globs, vec!["cJSON.c"]);

    let fmt = idx.get("gh:fmtlib/fmt").expect("fmt recipe");
    assert_eq!(fmt.kind.as_deref(), Some("lib"));
    assert_eq!(fmt.include_globs, vec!["format.cc", "os.cc"]);
}

#[test]
fn clone_cbld_toml_wins_over_overlay_recipe() {
    let mut idx = PackageIndex::default();
    idx.insert(
        "gh:nlohmann/json".into(),
        Recipe {
            kind: Some("header".into()),
            include_dirs: vec!["include".into()],
            git: Some("https://github.com/nlohmann/json.git".into()),
            ..Recipe::default()
        },
    );
    let mut clone = Manifest::default();
    clone.package = Some(Package {
        name: "from-clone".into(),
        version: "9.9.9".into(),
        description: None,
        authors: Vec::new(),
        toolchain: None,
        target: None,
        source_dir: "src".into(),
        include_dirs: Vec::new(),
        defines: Vec::new(),
        libs: Vec::new(),
        pkg_config: Vec::new(),
        ignore_warnings: false,
        kind: Some("lib".into()),
        include_globs: Vec::new(),
        exclude: Vec::new(),
    });
    let m = idx
        .effective_manifest(
            "/cache/json",
            Some(Ok(clone)),
            "gh:nlohmann/json",
            "https://github.com/nlohmann/json.git",
            "json",
            "3.11.3",
        )
        .unwrap();
    let pkg = m.package.unwrap();
    assert_eq!(pkg.name, "from-clone");
    assert_eq!(pkg.version, "9.9.9");
    assert_eq!(pkg.kind.as_deref(), Some("lib"));
}

#[test]
fn overlay_fills_in_when_clone_has_no_manifest() {
    let idx = PackageIndex::builtin();
    let m = idx
        .effective_manifest(
            "/cache/json",
            None,
            "gh:nlohmann/json",
            "https://github.com/nlohmann/json.git",
            "json",
            "3.11.3",
        )
        .unwrap();
    let pkg = m.package.unwrap();
    assert_eq!(pkg.name, "json");
    assert_eq!(pkg.version, "3.11.3");
    assert_eq!(pkg.kind.as_deref(), Some("header"));
    assert_eq!(pkg.include_dirs, vec!["include"]);
    assert_eq!(pkg.source_dir, "src");
}

#[test]
fn recipe_lookup_falls_back_to_git_url() {
    let idx = PackageIndex::builtin();
    let found = idx
        .find("json", "https://github.com/nlohmann/json.git")
        .expect("url match");
    assert_eq!(found.0, "gh:nlohmann/json");
    assert_eq!(found.1.kind.as_deref(), Some("header"));
}

#[test]
fn missing_manifest_without_recipe_is_not_cbld_standard() {
    let idx = PackageIndex::default();
    let err = idx
        .effective_manifest(
            "/cache/bar",
            None,
            "gh:foo/bar",
            "https://example.com/foo/bar.git",
            "bar",
            "1.0",
        )
        .unwrap_err();
    let msg = err.message();
    assert!(msg.contains("missing cbld.toml"), "{msg}");
    assert!(msg.contains("gh:foo/bar"), "{msg}");
}

#[test]
fn legacy_line_format_is_url_only_not_an_overlay() {
    let idx = PackageIndex::parse(
        "# comment\ngh:user/lib https://example.com/user/lib.git\n",
        "test",
        None,
    )
    .unwrap();
    let r = idx.get("gh:user/lib").unwrap();
    assert_eq!(r.git.as_deref(), Some("https://example.com/user/lib.git"));
    assert!(!r.is_overlay());
}

#[test]
fn user_index_overrides_builtin_keys() {
    let mut idx = PackageIndex::builtin();
    let text = "[\"gh:nlohmann/json\"]\ngit = \"https://example.com/fork.git\"\nkind = \"header\"\n";
    let decoded = vec![(
        "gh:nlohmann/json".to_string(),
        Recipe {
            git: Some("https://example.com/fork.git".to_string()),
            kind: Some("header".to_string()),
            ..Recipe::default()
        },
    )];
    idx.merge(PackageIndex::parse(text, "user", Some(Ok(decoded))).unwrap());
    assert_eq!(
        idx.git_url("gh:nlohmann/json"),
        Some("https://example.com/fork.git")
    );
    assert!(idx.get("gh:fmtlib/fmt").is_some());
}

#[test]
fn toml_detection_looks_at_uncommented_text() {
    assert!(looks_like_toml("[\"gh:a/b\"]\n"));
    assert!(looks_like_toml("  key = 1"));
    assert!(!looks_like_toml("# [not] = toml\ngh:a/b https://x/y.git\n"));
    assert!(!looks_like_toml(""));
}

#[test]
fn toml_reader_errors_become_resolution_errors() {
    match PackageIndex::parse("[broken", "user", Some(Err("expected `]`".to_string()))) {
        Err(CbldError::Resolution(m)) => assert_eq!(m, "malformed user: expected `]`"),
        other => panic!("unexpected: {:?}", other),
    }
}

#[test]
fn malformed_legacy_line_is_reported_with_its_number() {
    let text = "gh:a/b https://x/b.git\n\n   # only a comment\ngh:c/d\ngh:e/f https://x/f.git";
    match PackageIndex::parse(text, "index", None) {
        Err(CbldError::Resolution(m)) => assert_eq!(m, "malformed mapping in index on line 4: 'gh:c/d'"),
        other => panic!("unexpected: {:?}", other),
    }
}

#[test]
fn later_legacy_lines_replace_earlier_ones() {
    let text = "gh:a/b https://one/b.git extra words\ngh:a/b https://two/b.git # trailing\r\n";
    let idx = PackageIndex::parse(text, "index", None).unwrap();
    assert_eq!(idx.git_url("gh:a/b"), Some("https://two/b.git"));
    assert!(idx.overlay_shorthands().is_empty());
}

#[test]
fn git_url_lookup_ignores_spelling_differences() {
    let idx = PackageIndex::builtin();
    let found = idx.find("fmt", "  git+https://github.com/fmtlib/fmt.git/ ").expect("normalized match");
    assert_eq!(found.0, "gh:fmtlib/fmt");
    assert!(idx.find("nothing", "https://example.com/none.git").is_none());
}

#[test]
fn url_lookup_takes_the_first_key_in_order() {
    let mut idx = PackageIndex::default();
    idx.insert("z".to_string(), url_recipe("https://h/r.git"));
    idx.insert("b".to_string(), url_recipe("https://h/r"));
    idx.insert("m".to_string(), url_recipe("https://h/other"));
    let found = idx.find("q", "git+https://h/r/").unwrap();
    assert_eq!(found.0, "b");
}

#[test]
fn shorthand_lookup_wins_over_url_lookup() {
    let mut idx = PackageIndex::default();
    idx.insert("a".to_string(), url_recipe("https://h/r.git"));
    idx.insert("mine".to_string(), url_recipe("https://elsewhere"));
    let found = idx.find("mine", "https://h/r.git").unwrap();
    assert_eq!(found.0, "mine");
}

#[test]
fn url_only_recipe_is_not_an_overlay_so_the_clone_is_not_standard() {
    let mut idx = PackageIndex::default();
    idx.insert("gh:x/y".to_string(), url_recipe("https://x/y.git"));
    match idx.effective_manifest("/c/y", None, "gh:x/y", "https://x/y.git", "y", "1") {
        Err(CbldError::NotCbldStandard { path, reason }) => {
            assert_eq!(path, "/c/y");
            assert_eq!(
                reason,
                "missing cbld.toml (and no overlay recipe for 'gh:x/y' in the package index)"
            );
        }
        other => panic!("unexpected: {:?}", other),
    }
}

#[test]
fn overlay_manifest_mirrors_the_recipe() {
    let r = Recipe {
        git: None,
        kind: Some("lib".to_string()),
        source_dir: Some("lib".to_string()),
        include_dirs: vec!["inc".to_string()],
        include_globs: vec!["*.c".to_string()],
        exclude: vec!["test_*.c".to_string()],
        defines: vec!["X=1".to_string()],
        ignore_warnings: true,
    };
    let m = r.to_manifest("pkg", "2.0");
    assert!(m.workspace.is_none());
    assert!(m.dependencies.is_empty());
    let p = m.package.unwrap();
    assert_eq!(p.name, "pkg");
    assert_eq!(p.version, "2.0");
    assert_eq!(p.source_dir, "lib");
    assert_eq!(p.include_dirs, vec!["inc"]);
    assert_eq!(p.include_globs, vec!["*.c"]);
    assert_eq!(p.exclude, vec!["test_*.c"]);
    assert_eq!(p.defines, vec!["X=1"]);
    assert!(p.ignore_warnings);
    assert_eq!(p.kind.as_deref(), Some("lib"));
}

#[test]
fn merge_replaces_keys_and_keeps_the_rest() {
    let mut base = PackageIndex::default();
    base.insert("a".to_string(), url_recipe("https://a/1"));
    base.insert("b".to_string(), url_recipe("https://b/1"));
    let mut other = PackageIndex::default();
    other.insert("b".to_string(), url_recipe("https://b/2"));
    other.insert("c".to_string(), url_recipe("https://c/2"));
    base.merge(other);
    assert_eq!(base.git_url("a"), Some("https://a/1"));
    assert_eq!(base.git_url("b"), Some("https://b/2"));
    assert_eq!(base.git_url("c"), Some("https://c/2"));
}

#[test]
fn overlay_shorthands_come_in_key_order() {
    let mut idx = PackageIndex::default();
    let overlay = |k: &str| Recipe {
        kind: Some(k.to_string()),
        ..Recipe::default()
    };
    idx.insert("zz".to_string(), overlay("lib"));
    idx.insert("Ab".to_string(), overlay("header"));
    idx.insert("ab".to_string(), url_recipe("https://x"));
    idx.insert("a".to_string(), overlay("lib"));
    assert_eq!(idx.overlay_shorthands(), vec!["Ab", "a", "zz"]);
}
