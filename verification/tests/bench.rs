use cbld::bench::{
    benchmark_run_outcome, collect_benchmark_sources, console_rows, parse_console_output, time_unit_scale,
    BenchmarkResult, ConsoleRow,
};
use cbld::error::CbldError;

/// A printed time in a unit of `scale` nanoseconds, as a whole number of
/// nanoseconds; `None` when the text is not a finite number.
fn to_nanoseconds(value: &str, scale: i64) -> Option<i64> {
    let v: f64 = value.parse().ok()?;
    if !v.is_finite() {
        return None;
    }
    Some((v * scale as f64).round() as i64)
}

/// The result rows of a console output, times converted as the command does.
fn parse_console_text(output: &str) -> Vec<BenchmarkResult> {
    let rows = console_rows(output)
        .into_iter()
        .map(|row| {
            let real = to_nanoseconds(&row.real_time, row.real_scale);
            let cpu = to_nanoseconds(&row.cpu_time, row.cpu_scale);
            (row, real, cpu)
        })
        .collect();
    parse_console_output(rows)
}

fn row(name: &str, real: &str, cpu: &str) -> ConsoleRow {
    ConsoleRow {
        name: name.to_string(),
        real_time: real.to_string(),
        real_scale: 1,
        cpu_time: cpu.to_string(),
        cpu_scale: 1,
        iterations: 7,
    }
}

fn files(list: &[&str]) -> Vec<String> {
    list.iter().map(|s| s.to_string()).collect()
}

#[test]
fn discovers_benchmark_directories_and_src_prefixes() {
    let listing = files(&["benchmarks/nested/hash.cpp", "src/bench_sort.cpp", "src/main.cpp"]);
    let found = collect_benchmark_sources("/work/pkg", &listing).unwrap();
    assert_eq!(found.len(), 2);
    assert!(found.iter().any(|path| path.ends_with("hash.cpp")));
    assert!(found.iter().any(|path| path.ends_with("bench_sort.cpp")));
}

#[test]
fn rejects_mixed_benchmark_languages() {
    let listing = files(&["bench/a.c", "bench/b.cpp"]);
    assert!(collect_benchmark_sources("/work/pkg", &listing).is_err());
}

#[test]
fn parses_google_benchmark_rows_and_normalizes_units() {
    let output = "Benchmark             Time   CPU   Iterations\nBM_sort 1.5 us 2 ms 42\nBM_sort_mean 1 us 1 us";
    assert_eq!(
        parse_console_text(output),
        vec![BenchmarkResult {
            name: "BM_sort".into(),
            real_time_ns: 1_500,
            cpu_time_ns: 2_000_000,
            iterations: 42,
        }]
    );
}

#[test]
fn ignores_unknown_units_and_malformed_rows() {
    let output = "BM_ok 1 ns 2 ns 3\nBM_bad 1 ticks 2 ns 3\nnot a row";
    let rows = parse_console_text(output);
    assert_eq!(rows.len(), 1);
    assert_eq!(rows[0].name, "BM_ok");
}

#[test]
fn benchmark_sources_come_sorted_with_the_root_joined() {
    let listing = files(&["src/zeta_bench.cpp", "benches/b.cpp", "benches/a/z.cpp", "benches/a-b.cpp"]);
    let found = collect_benchmark_sources("/p", &listing).unwrap();
    assert_eq!(
        found,
        vec!["/p/benches/a/z.cpp", "/p/benches/a-b.cpp", "/p/benches/b.cpp", "/p/src/zeta_bench.cpp"]
    );
}

#[test]
fn benchmark_discovery_ignores_files_outside_the_conventions() {
    let listing = files(&["src/util/bench_x.cpp", "src/bench_notes.txt", "other/bench_y.cpp", "bench/readme.md"]);
    match collect_benchmark_sources("/p", &listing) {
        Err(CbldError::LayoutViolation(m)) => assert_eq!(
            m,
            "no benchmark sources found under /p/benches, /p/benchmarks, /p/bench, or src/bench_*"
        ),
        other => panic!("unexpected: {:?}", other),
    }
}

#[test]
fn mixed_benchmark_languages_name_the_problem() {
    let listing = files(&["src/bench_a.c", "src/benchmarks/deep/b.cc"]);
    match collect_benchmark_sources("/p", &listing) {
        Err(CbldError::LayoutViolation(m)) => assert_eq!(m, "benchmark suite mixes C and C++ sources"),
        other => panic!("unexpected: {:?}", other),
    }
}

#[test]
fn duplicate_benchmark_listings_collapse() {
    let listing = files(&["bench/a.c", "bench/a.c"]);
    assert_eq!(collect_benchmark_sources("/p", &listing).unwrap(), vec!["/p/bench/a.c"]);
}

#[test]
fn time_units_scale_to_nanoseconds() {
    assert_eq!(time_unit_scale(&['n', 's']), Some(1));
    assert_eq!(time_unit_scale(&['u', 's']), Some(1_000));
    assert_eq!(time_unit_scale(&['m', 's']), Some(1_000_000));
    assert_eq!(time_unit_scale(&['s']), Some(1_000_000_000));
    assert_eq!(time_unit_scale(&['t', 'i', 'c', 'k', 's']), None);
    assert_eq!(time_unit_scale(&['N', 's']), None);
}

#[test]
fn console_rows_keep_fields_as_printed() {
    let rows = console_rows("head er\nBM_a 1.5e2 us 3 ms 10 extra\nBM_b 1 ns 2 ns x\nBM_c 1 ns 2 ns -4");
    assert_eq!(
        rows,
        vec![
            ConsoleRow {
                name: "BM_a".into(),
                real_time: "1.5e2".into(),
                real_scale: 1_000,
                cpu_time: "3".into(),
                cpu_scale: 1_000_000,
                iterations: 10,
            },
            ConsoleRow {
                name: "BM_c".into(),
                real_time: "1".into(),
                real_scale: 1,
                cpu_time: "2".into(),
                cpu_scale: 1,
                iterations: -4,
            },
        ]
    );
}

#[test]
fn rows_are_kept_only_when_both_times_converted() {
    let rows = vec![
        (row("BM_a", "1", "2"), Some(1), Some(2)),
        (row("BM_b", "inf", "2"), None, Some(2)),
        (row("BM_c", "1", "nan"), Some(1), None),
        (row("BM_d", "5", "6"), Some(5), Some(6)),
    ];
    assert_eq!(
        parse_console_output(rows),
        vec![
            BenchmarkResult { name: "BM_a".into(), real_time_ns: 1, cpu_time_ns: 2, iterations: 7 },
            BenchmarkResult { name: "BM_d".into(), real_time_ns: 5, cpu_time_ns: 6, iterations: 7 },
        ]
    );
}

#[test]
fn non_finite_times_drop_the_row() {
    assert!(parse_console_text("BM 1e400 ns 1 ns 1").is_empty());
    assert_eq!(parse_console_text("BM 9007199254740993 ns 1 ns 1")[0].real_time_ns, 9007199254740992);
}

#[test]
fn failed_benchmark_process_is_an_error() {
    match benchmark_run_outcome("bench-bin".into(), false, Some(3), "out\nerr".into(), vec![]) {
        Err(CbldError::CommandFailed { program, code, stderr }) => {
            assert_eq!(program, "bench-bin");
            assert_eq!(code, Some(3));
            assert_eq!(stderr, "out\nerr");
        }
        other => panic!("unexpected: {:?}", other),
    }
}

#[test]
fn benchmark_without_rows_is_a_layout_error() {
    match benchmark_run_outcome("bench-bin".into(), true, Some(0), "nothing".into(), vec![]) {
        Err(CbldError::LayoutViolation(m)) => assert_eq!(m, "benchmark executable produced no parseable result rows"),
        other => panic!("unexpected: {:?}", other),
    }
    let rows = vec![BenchmarkResult { name: "BM".into(), real_time_ns: 1, cpu_time_ns: 1, iterations: 1 }];
    let run = benchmark_run_outcome("bench-bin".into(), true, Some(0), "BM 1 ns 1 ns 1".into(), rows.clone()).unwrap();
    assert_eq!(run.results, rows);
    assert_eq!(run.output, "BM 1 ns 1 ns 1");
}
