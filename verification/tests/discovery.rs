use cbld::error::CbldError;
use cbld::test::{collect_test_sources, parse_test_summary};

fn files(list: &[&str]) -> Vec<String> {
    list.iter().map(|s| s.to_string()).collect()
}

#[test]
fn discovers_tests_in_tests_dir() {
    let listing = files(&["tests/test_foo.cpp", "tests/bar_test.cpp", "tests/sub/baz.cpp"]);
    let found = collect_test_sources("/work/p", &listing).unwrap();
    assert_eq!(found.len(), 3);
}

#[test]
fn discovers_src_test_prefix() {
    let listing = files(&["src/test_foo.cpp", "src/my_test.cpp", "src/lib.cpp"]);
    let found = collect_test_sources("/work/p", &listing).unwrap();
    assert_eq!(found.len(), 2);
    assert!(found.iter().any(|p| p.ends_with("test_foo.cpp")));
}

#[test]
fn errors_when_no_tests() {
    let listing = files(&["src/lib.cpp"]);
    assert!(collect_test_sources("/work/p", &listing).is_err());
}

#[test]
fn accepts_mixed_c_and_cpp() {
    let listing = files(&["tests/a.cpp", "tests/b.c"]);
    assert_eq!(collect_test_sources("/work/p", &listing).unwrap().len(), 2);
}

#[test]
fn parses_gtest_summary() {
    assert_eq!(parse_test_summary("[  PASSED  ] 3 tests.", true), (3, 0));
    assert_eq!(parse_test_summary("[  FAILED  ] 1 test.", false), (0, 1));
}

#[test]
fn parses_catch_summary() {
    assert_eq!(
        parse_test_summary("test cases: 3 | 2 passed | 1 failed", false),
        (2, 1)
    );
}

#[test]
fn summary_without_counts_follows_the_exit_status() {
    assert_eq!(parse_test_summary("all good", true), (1, 0));
    assert_eq!(parse_test_summary("segfault", false), (0, 1));
}

#[test]
fn test_sources_are_sorted_by_path_components() {
    let listing = files(&[
        "tests/a-b.cpp",
        "tests/a/b.cpp",
        "test/z.c",
        "src/tests/deep/x.cc",
        "src/x-test.cpp",
        "src/test-y.c",
        "src/other/test_z.cpp",
        "tests/notes.txt",
    ]);
    let found = collect_test_sources("/r", &listing).unwrap();
    assert_eq!(
        found,
        vec![
            "/r/src/test-y.c",
            "/r/src/tests/deep/x.cc",
            "/r/src/x-test.cpp",
            "/r/test/z.c",
            "/r/tests/a/b.cpp",
            "/r/tests/a-b.cpp",
        ]
    );
}

#[test]
fn missing_tests_error_names_the_searched_places() {
    match collect_test_sources("/r", &files(&["README.md"])) {
        Err(CbldError::LayoutViolation(m)) => assert_eq!(
            m,
            "no test sources found under /r/tests, /r/test, or src/test_*/src/*_test.*"
        ),
        other => panic!("unexpected: {:?}", other),
    }
}
