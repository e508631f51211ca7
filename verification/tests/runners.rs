use cbld::assoc::keys_in_order;
use cbld::bench::benchmark_args;
use cbld::test::{joined_output, test_args, test_run_counts};
use cbld::vendor::vendored_dirs;

#[test]
fn benchmark_runner_arguments() {
    assert_eq!(benchmark_args(None), vec!["--benchmark_format=console"]);
    assert_eq!(benchmark_args(Some("BM_sort.*")), vec!["--benchmark_format=console", "--benchmark_filter=BM_sort.*"]);
}

#[test]
fn test_runner_arguments() {
    assert!(test_args(None).is_empty());
    assert_eq!(test_args(Some("Suite.*")), vec!["--gtest_filter=Suite.*"]);
}

#[test]
fn runner_output_joins_streams_with_a_newline() {
    assert_eq!(joined_output("out", "err"), "out\nerr");
    assert_eq!(joined_output("", ""), "\n");
}

#[test]
fn failing_exit_without_summary_counts_one_failure_and_is_no_error() {
    let (passed, failed, out) = test_run_counts(false, "crashed", "boom");
    assert_eq!((passed, failed), (0, 1));
    assert_eq!(out, "crashed\nboom");
    let (passed, failed, _) = test_run_counts(true, "", "");
    assert_eq!((passed, failed), (1, 0));
}

#[test]
fn vendored_directory_listing_decides_offline_builds() {
    assert_eq!(vendored_dirs(&[]), None);
    let entries = vec![("fmt".to_string(), true), ("README".to_string(), false), ("json".to_string(), true)];
    assert_eq!(vendored_dirs(&entries), Some(vec!["fmt".to_string(), "json".to_string()]));
    assert_eq!(vendored_dirs(&[("notes.txt".to_string(), false)]), Some(vec![]));
}

#[test]
fn dependency_keys_in_order() {
    let e = |k: &[&str]| k.iter().map(|s| (s.to_string(), ())).collect::<Vec<_>>();
    assert!(keys_in_order(&e(&[])));
    assert!(keys_in_order(&e(&["a", "b", "gh:x/y"])));
    assert!(!keys_in_order(&e(&["b", "a"])));
    assert!(!keys_in_order(&e(&["a", "a"])));
}
