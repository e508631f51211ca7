use cbld::error::CbldError;
use cbld::manifest::{Manifest, Package, Workspace};
use cbld::project::{
    dependency_include_dirs, effective_source_dir, effective_target, package_include_dirs, package_roots,
    resolve_jobs, resolve_template_url, short_sha,
};

fn package(target: Option<&str>) -> Package {
    Package {
        name: "p".into(),
        version: "0.1.0".into(),
        description: None,
        authors: Vec::new(),
        toolchain: None,
        target: target.map(str::to_string),
        source_dir: "src".into(),
        include_dirs: vec!["third".into(), "/abs/inc".into()],
        defines: Vec::new(),
        libs: Vec::new(),
        pkg_config: Vec::new(),
        ignore_warnings: false,
        kind: None,
        include_globs: Vec::new(),
        exclude: Vec::new(),
    }
}

#[test]
fn template_urls_resolve_by_host_prefix() {
    assert_eq!(resolve_template_url("gh:user/repo", false), "https://github.com/user/repo.git");
    assert_eq!(resolve_template_url("  gl:group/proj ", false), "https://gitlab.com/group/proj.git");
    assert_eq!(resolve_template_url("cb:me/thing", false), "https://codeberg.org/me/thing.git");
    assert_eq!(resolve_template_url("sh:me/thing", false), "https://git.sr.ht/~me/thing");
}

#[test]
fn full_urls_and_git_paths_stay_as_written() {
    assert_eq!(resolve_template_url("https://example.com/x", false), "https://example.com/x");
    assert_eq!(resolve_template_url("git@github.com:a/b", false), "git@github.com:a/b");
    assert_eq!(resolve_template_url("gh:a/b.git", false), "gh:a/b.git");
}

#[test]
fn bare_owner_repo_goes_to_github_unless_it_is_a_path() {
    assert_eq!(resolve_template_url("owner/repo", false), "https://github.com/owner/repo.git");
    assert_eq!(resolve_template_url("owner/repo", true), "owner/repo");
    assert_eq!(resolve_template_url("not a/repo", false), "not a/repo");
    assert_eq!(resolve_template_url("plain", false), "plain");
}

#[test]
fn short_sha_keeps_ten_characters() {
    assert_eq!(short_sha("0123456789abcdef"), "0123456789");
    assert_eq!(short_sha("abc"), "abc");
}

#[test]
fn cli_target_wins_over_manifest_target() {
    let mut m = Manifest::default();
    m.package = Some(package(Some("aarch64-linux-gnu")));
    assert_eq!(effective_target(Some("x86_64-pc-windows-msvc"), &m).as_deref(), Some("x86_64-pc-windows-msvc"));
    assert_eq!(effective_target(None, &m).as_deref(), Some("aarch64-linux-gnu"));
    assert_eq!(effective_target(None, &Manifest::default()), None);
}

#[test]
fn source_dir_override() {
    let p = package(None);
    assert_eq!(effective_source_dir(Some("legacy/code"), &p), "legacy/code");
    assert_eq!(effective_source_dir(None, &p), "src");
}

#[test]
fn job_count_is_at_least_one() {
    assert_eq!(resolve_jobs(Some(0), 8), 1);
    assert_eq!(resolve_jobs(Some(3), 8), 3);
    assert_eq!(resolve_jobs(None, 8), 8);
    assert_eq!(resolve_jobs(None, 0), 1);
}

#[test]
fn include_dirs_resolve_against_the_root() {
    let p = package(None);
    assert_eq!(package_include_dirs("/pkg", &p), vec!["/pkg/third", "/abs/inc"]);
    assert_eq!(
        dependency_include_dirs("/pkg/", &p),
        vec!["/pkg/src", "/pkg/include", "/pkg/third", "/abs/inc"]
    );
}

#[test]
fn workspace_members_are_visited_in_order() {
    let mut m = Manifest::default();
    m.workspace = Some(Workspace {
        members: vec!["libs/a".into(), "app".into()],
    });
    assert_eq!(package_roots("/ws", &m).unwrap(), vec!["/ws/libs/a", "/ws/app"]);
    assert_eq!(package_roots("/one", &Manifest::default()).unwrap(), vec!["/one"]);
}

#[test]
fn empty_workspace_is_a_layout_violation() {
    let mut m = Manifest::default();
    m.workspace = Some(Workspace { members: Vec::new() });
    match package_roots("/ws", &m) {
        Err(CbldError::LayoutViolation(msg)) => assert_eq!(msg, "workspace has no members"),
        other => panic!("unexpected: {:?}", other),
    }
}
