use cbld::bench::BenchmarkResult;
use cbld::error::CbldError;
use cbld::manifest::{Manifest, Package};
use cbld::path::{set_extension, strip_base};
use cbld::project::{pkg_config_failed, pkg_config_flags, pkg_config_missing};
use cbld::report::{
    bench_failure_payload, bench_success_payload, status_payload, test_failure_payload, test_success_payload,
    test_verdict, TestOutcome,
};
use cbld::test::{runner_plan, TestBuildOptions};

fn package() -> Package {
    Package {
        name: "p".into(),
        version: "1".into(),
        description: None,
        authors: Vec::new(),
        toolchain: None,
        target: None,
        source_dir: "src".into(),
        include_dirs: vec!["inc".into()],
        defines: Vec::new(),
        libs: Vec::new(),
        pkg_config: Vec::new(),
        ignore_warnings: false,
        kind: None,
        include_globs: Vec::new(),
        exclude: Vec::new(),
    }
}

fn options<'a>(target: Option<&'a str>, release: bool) -> TestBuildOptions<'a> {
    TestBuildOptions {
        active_features: &[],
        target,
        sysroot: None,
        link_archives: &[],
        release,
        verbose: false,
        quiet: true,
        jobs: 1,
    }
}

#[test]
fn test_payloads_render_exactly() {
    let ok = TestOutcome {
        passed: 3,
        failed: 0,
        binary: "/p/target/debug/cbld-test".to_string(),
    };
    assert_eq!(
        test_success_payload(&ok, 9).render(),
        "{\"status\":\"success\",\"duration_ms\":9,\"passed\":3,\"failed\":0,\"binary\":\"/p/target/debug/cbld-test\",\"errors\":[]}"
    );
    assert_eq!(
        test_failure_payload(&CbldError::Lint, 1).render(),
        "{\"status\":\"failure\",\"duration_ms\":1,\"passed\":0,\"failed\":0,\"errors\":[{\"severity\":\"error\",\"message\":\"lint failed: clang-tidy reported findings\"}]}"
    );
}

#[test]
fn bench_payloads_render_exactly() {
    let rows = vec![BenchmarkResult {
        name: "BM_x".to_string(),
        real_time_ns: 10,
        cpu_time_ns: 11,
        iterations: 12,
    }];
    assert_eq!(
        bench_success_payload(&rows, "/b", 5).render(),
        "{\"status\":\"success\",\"duration_ms\":5,\"binary\":\"/b\",\"benchmarks\":[{\"name\":\"BM_x\",\"real_time_ns\":10,\"cpu_time_ns\":11,\"iterations\":12}],\"errors\":[]}"
    );
    assert_eq!(
        bench_failure_payload(&CbldError::FmtCheck, 2).render(),
        "{\"status\":\"failure\",\"duration_ms\":2,\"errors\":[{\"severity\":\"error\",\"message\":\"fmt --check failed: clang-format would rewrite one or more files\"}]}"
    );
}

#[test]
fn status_payloads_render_exactly() {
    assert_eq!(status_payload(None).render(), "{\"status\":\"success\"}");
    assert_eq!(
        status_payload(Some(&CbldError::Environment("no clang".to_string()))).render(),
        "{\"status\":\"failure\",\"message\":\"environment error: no clang\"}"
    );
}

#[test]
fn failing_tests_fail_the_command() {
    match test_verdict(2, 1, "/bin/t".to_string(), "out".to_string()) {
        Err(CbldError::CommandFailed { program, code, stderr }) => {
            assert_eq!(program, "/bin/t");
            assert_eq!(code, Some(1));
            assert_eq!(stderr, "out");
        }
        other => panic!("unexpected: {:?}", other.map(|t| t.passed)),
    }
    let ok = test_verdict(4, 0, "/bin/t".to_string(), String::new()).unwrap();
    assert_eq!((ok.passed, ok.failed, ok.binary.as_str()), (4, 0, "/bin/t"));
}

#[test]
fn pkg_config_output_and_errors() {
    assert_eq!(pkg_config_flags(" -I/usr/x  -DY\n"), vec!["-I/usr/x", "-DY"]);
    let names = vec!["zlib".to_string(), "ssl".to_string()];
    match pkg_config_failed("--cflags", &names, "  ") {
        CbldError::Config(m) => assert_eq!(m, "pkg-config --cflags zlib ssl failed: package not found"),
        other => panic!("unexpected: {:?}", other),
    }
    match pkg_config_failed("--libs", &names, " no ssl\n") {
        CbldError::Config(m) => assert_eq!(m, "pkg-config --libs zlib ssl failed: no ssl"),
        other => panic!("unexpected: {:?}", other),
    }
    match pkg_config_missing(&names, "not found") {
        CbldError::Environment(m) => {
            assert_eq!(m, "pkg-config not found on PATH (needed for pkg_config = [zlib, ssl]): not found")
        }
        other => panic!("unexpected: {:?}", other),
    }
}

#[test]
fn path_helpers_follow_path_semantics() {
    assert_eq!(strip_base("/p/tests/a.cpp", "/p"), "tests/a.cpp");
    assert_eq!(strip_base("/p/tests/a.cpp", "/p/"), "tests/a.cpp");
    assert_eq!(strip_base("/px/a.cpp", "/p"), "/px/a.cpp");
    assert_eq!(strip_base("/p", "/p"), "");
    assert_eq!(set_extension("obj/a.cpp", "o"), "obj/a.o");
    assert_eq!(set_extension("obj/a", "o"), "obj/a.o");
    assert_eq!(set_extension("obj/.hidden", "o"), "obj/.hidden.o");
    assert_eq!(set_extension("obj/a.tar.gz", "o"), "obj/a.tar.o");
    assert_eq!(set_extension("/", "o"), "/");
}

#[test]
fn runner_plan_places_objects_and_binary() {
    let mut m = Manifest::default();
    m.package = Some(package());
    let sources = vec!["/p/tests/a.c".to_string(), "/p/tests/sub/b.cpp".to_string()];
    let plan = runner_plan("/p", &m, &sources, &options(None, false), "cbld-test", false).unwrap();
    assert_eq!(plan.target_dir, "/p/target/debug");
    assert_eq!(plan.binary, "/p/target/debug/cbld-test");
    assert_eq!(plan.object_dir, "/p/target/debug/obj/cbld-test");
    assert_eq!(
        plan.objects,
        vec!["/p/target/debug/obj/cbld-test/tests/a.o", "/p/target/debug/obj/cbld-test/tests/sub/b.o"]
    );
    assert!(plan.links_cpp);
    assert_eq!(plan.include_dirs, vec!["/p/inc"]);

    let cross = runner_plan("/p", &m, &sources[..1], &options(Some("aarch64-linux-gnu"), true), "cbld-bench", true)
        .unwrap();
    assert_eq!(cross.binary, "/p/target/aarch64-linux-gnu/release/cbld-bench.exe");
    assert!(!cross.links_cpp);
}

#[test]
fn runner_plan_needs_a_package_and_sources() {
    let sources = vec!["/p/tests/a.c".to_string()];
    match runner_plan("/p", &Manifest::default(), &sources, &options(None, false), "t", false) {
        Err(CbldError::Config(m)) => assert_eq!(m, "no [package] in cbld.toml"),
        other => panic!("unexpected: {:?}", other.map(|p| p.binary)),
    }
    let mut m = Manifest::default();
    m.package = Some(package());
    match runner_plan("/p", &m, &[], &options(None, false), "t", false) {
        Err(CbldError::LayoutViolation(msg)) => assert_eq!(msg, "no test sources were discovered"),
        other => panic!("unexpected: {:?}", other.map(|p| p.binary)),
    }
}
