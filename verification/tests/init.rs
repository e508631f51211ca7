use cbld::error::CbldError;
use cbld::init::{check_template_target, clone_failure, package_name_for, scaffold, CPP_MAIN, C_LIB, C_PROFILE, CPP_PROFILE};

#[test]
fn new_executable_defaults_to_cpp_main() {
    let s = scaffold("app", false, false, false);
    assert_eq!(s.entry_file, "main.cpp");
    assert_eq!(s.entry_body, CPP_MAIN);
    assert_eq!(
        s.manifest,
        format!("[package]\nname = \"app\"\nversion = \"0.1.0\"\n\n[features]\ndefault = []\n\n{CPP_PROFILE}\n[dependencies]\n")
    );
}

#[test]
fn lib_flag_makes_a_library_unless_bin_is_given() {
    let lib = scaffold("l", true, false, true);
    assert_eq!(lib.entry_file, "lib.c");
    assert_eq!(lib.entry_body, C_LIB);
    assert!(lib.manifest.contains(C_PROFILE));
    let both = scaffold("l", true, true, true);
    assert_eq!(both.entry_file, "main.c");
}

#[test]
fn package_name_falls_back_to_the_directory_then_a_default() {
    assert_eq!(package_name_for(Some("given"), Some("dir")), "given");
    assert_eq!(package_name_for(None, Some("dir")), "dir");
    assert_eq!(package_name_for(None, None), "my_project");
}

#[test]
fn template_target_must_be_empty_and_unmanaged() {
    let none: Vec<String> = Vec::new();
    match check_template_target("   ", "/d", false, &none) {
        Err(CbldError::Config(m)) => assert_eq!(m, "empty --template value"),
        other => panic!("unexpected: {:?}", other),
    }
    match check_template_target("gh:a/b", "/d", true, &none) {
        Err(CbldError::LayoutViolation(m)) => {
            assert_eq!(m, "/d already contains cbld.toml; refusing to overwrite with template")
        }
        other => panic!("unexpected: {:?}", other),
    }
    let entries = vec![".git".to_string(), "README".to_string()];
    match check_template_target("gh:a/b", "/d", false, &entries) {
        Err(CbldError::LayoutViolation(m)) => assert_eq!(m, "/d is not empty; --template requires an empty directory"),
        other => panic!("unexpected: {:?}", other),
    }
    let ignorable = vec![".git".to_string(), ".gitignore".to_string()];
    assert_eq!(check_template_target(" gh:a/b ", "/d", false, &ignorable).unwrap(), "gh:a/b");
}

#[test]
fn failed_clone_reports_git_or_a_fallback() {
    match clone_failure("https://x/y.git", Some(128), "  fatal: no such repo\n") {
        CbldError::CommandFailed { program, code, stderr } => {
            assert_eq!(program, "git");
            assert_eq!(code, Some(128));
            assert_eq!(stderr, "fatal: no such repo");
        }
        other => panic!("unexpected: {:?}", other),
    }
    match clone_failure("https://x/y.git", None, " \n") {
        CbldError::CommandFailed { stderr, .. } => assert_eq!(stderr, "git clone https://x/y.git failed"),
        other => panic!("unexpected: {:?}", other),
    }
}

#[test]
fn new_package_ignores_the_build_directory() {
    assert_eq!(scaffold("app", false, false, false).gitignore, "/target\n");
    assert_eq!(scaffold("l", true, false, true).gitignore, "/target\n");
}
