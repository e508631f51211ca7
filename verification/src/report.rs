//! The machine-readable (`--json`) summary of a build.
use vstd::prelude::*;

use crate::bench::BenchmarkResult;
use crate::error::{error_message, CbldError, CompileDiagnostic, Result};
use crate::json::Json;

verus! {

/// Outcome of a successful build, as the summary reports it.
pub struct BuildOutcome {
    /// Path of the produced executable or archive.
    pub artifact: String,
    /// How many library packages (this build's dependencies and/or the root
    /// package itself) were served from the global build cache instead of
    /// being recompiled.
    pub cache_hits: usize,
}

/// Field `f` is `"key": "val"`.
pub open spec fn is_str_field(f: (String, Json), key: Seq<char>, val: Seq<char>) -> bool {
    f.0@ == key && (f.1 matches Json::Str(s) && s@ == val)
}

/// Field `f` is `"key": n`.
pub open spec fn is_num_field(f: (String, Json), key: Seq<char>, n: int) -> bool {
    f.0@ == key && (f.1 matches Json::Number(x) && x == n)
}

/// Field `f` is `"key": null`.
pub open spec fn is_null_field(f: (String, Json), key: Seq<char>) -> bool {
    f.0@ == key && f.1 is Null
}

/// `{"status":"success","duration_ms":N,"cache_hits":N,"artifact":"...","errors":[]}`
pub open spec fn is_success_payload(j: Json, outcome: BuildOutcome, duration_ms: i64) -> bool {
    j matches Json::Object(fs) && {
        &&& fs@.len() == 5
        &&& is_str_field(fs@[0], "status"@, "success"@)
        &&& is_num_field(fs@[1], "duration_ms"@, duration_ms as int)
        &&& is_num_field(fs@[2], "cache_hits"@, (outcome.cache_hits as i64) as int)
        &&& is_str_field(fs@[3], "artifact"@, outcome.artifact@)
        &&& fs@[4].0@ == "errors"@
        &&& (fs@[4].1 matches Json::Array(es) && es@.len() == 0)
    }
}

/// A compiler diagnostic as an entry of `errors`.
pub open spec fn is_diagnostic_entry(j: Json, d: CompileDiagnostic) -> bool {
    j matches Json::Object(fs) && {
        &&& fs@.len() == 5
        &&& is_str_field(fs@[0], "file"@, d.file@)
        &&& is_num_field(fs@[1], "line"@, (d.line as i64) as int)
        &&& is_num_field(fs@[2], "column"@, (d.column as i64) as int)
        &&& is_str_field(fs@[3], "severity"@, d.severity@)
        &&& is_str_field(fs@[4], "message"@, d.message@)
    }
}

/// The single entry of `errors` for an error that carries no diagnostics:
/// no file, position zero, and the error's message.
pub open spec fn is_message_entry(j: Json, message: Seq<char>) -> bool {
    j matches Json::Object(fs) && {
        &&& fs@.len() == 5
        &&& is_null_field(fs@[0], "file"@)
        &&& is_num_field(fs@[1], "line"@, 0)
        &&& is_num_field(fs@[2], "column"@, 0)
        &&& is_str_field(fs@[3], "severity"@, "error"@)
        &&& is_str_field(fs@[4], "message"@, message)
    }
}

/// The `errors` entries for `err`: its structured diagnostics when it is a
/// compilation failure, else one entry with its message.
pub open spec fn is_error_entries(es: Seq<Json>, err: CbldError) -> bool {
    match err {
        CbldError::Compilation { diagnostics, .. } => es.len() == diagnostics@.len() && forall|i: int|
            0 <= i < es.len() ==> #[trigger] is_diagnostic_entry(es[i], diagnostics@[i]),
        _ => es.len() == 1 && is_message_entry(es[0], error_message(err)),
    }
}

/// `{"status":"failure","duration_ms":N,"cache_hits":0,"errors":[{...}]}`
pub open spec fn is_failure_payload(j: Json, err: CbldError, duration_ms: i64) -> bool {
    j matches Json::Object(fs) && {
        &&& fs@.len() == 4
        &&& is_str_field(fs@[0], "status"@, "failure"@)
        &&& is_num_field(fs@[1], "duration_ms"@, duration_ms as int)
        &&& is_num_field(fs@[2], "cache_hits"@, 0)
        &&& fs@[3].0@ == "errors"@
        &&& (fs@[3].1 matches Json::Array(es) && is_error_entries(es@, err))
    }
}

fn field(key: &str, value: Json) -> (f: (String, Json))
    ensures
        f.0@ == key@,
        f.1 == value,
{
    (key.to_owned(), value)
}

/// The summary of a successful build.
pub fn build_success_payload(outcome: &BuildOutcome, duration_ms: i64) -> (j: Json)
    ensures
        is_success_payload(j, *outcome, duration_ms),
{
    let mut fs: Vec<(String, Json)> = Vec::new();
    fs.push(field("status", Json::str("success")));
    fs.push(field("duration_ms", Json::Number(duration_ms)));
    fs.push(field("cache_hits", Json::Number(outcome.cache_hits as i64)));
    fs.push(field("artifact", Json::str(outcome.artifact.as_str())));
    fs.push(field("errors", Json::Array(Vec::new())));
    Json::Object(fs)
}

/// One diagnostic as an entry of `errors`.
fn diagnostic_entry(d: &CompileDiagnostic) -> (j: Json)
    ensures
        is_diagnostic_entry(j, *d),
{
    let mut fs: Vec<(String, Json)> = Vec::new();
    fs.push(field("file", Json::str(d.file.as_str())));
    fs.push(field("line", Json::Number(d.line as i64)));
    fs.push(field("column", Json::Number(d.column as i64)));
    fs.push(field("severity", Json::str(d.severity.as_str())));
    fs.push(field("message", Json::str(d.message.as_str())));
    Json::Object(fs)
}

/// The summary of a failed build. `errors` carries the structured
/// diagnostics of a compilation failure, or a single entry built from the
/// error's message otherwise (e.g. a layout violation that never reached
/// the compiler at all).
pub fn build_failure_payload(err: &CbldError, duration_ms: i64) -> (j: Json)
    ensures
        is_failure_payload(j, *err, duration_ms),
{
    let mut entries: Vec<Json> = Vec::new();
    match err {
        CbldError::Compilation { diagnostics, .. } => {
            for i in 0..diagnostics.len()
                invariant
                    entries@.len() == i,
                    forall|k: int| 0 <= k < i ==> #[trigger] is_diagnostic_entry(entries@[k], diagnostics@[k]),
            {
                entries.push(diagnostic_entry(&diagnostics[i]));
            }
        },
        _ => {
            let mut fs: Vec<(String, Json)> = Vec::new();
            fs.push(field("file", Json::Null));
            fs.push(field("line", Json::Number(0)));
            fs.push(field("column", Json::Number(0)));
            fs.push(field("severity", Json::str("error")));
            fs.push(field("message", Json::Str(err.message())));
            entries.push(Json::Object(fs));
        },
    }
    let mut fs: Vec<(String, Json)> = Vec::new();
    fs.push(field("status", Json::str("failure")));
    fs.push(field("duration_ms", Json::Number(duration_ms)));
    fs.push(field("cache_hits", Json::Number(0)));
    fs.push(field("errors", Json::Array(entries)));
    Json::Object(fs)
}

/// What a test run reports.
pub struct TestOutcome {
    pub passed: usize,
    pub failed: usize,
    /// Path of the test executable.
    pub binary: String,
}

/// `{"status":"success","duration_ms":N,"passed":N,"failed":N,"binary":"...","errors":[]}`
pub open spec fn is_test_success_payload(j: Json, outcome: TestOutcome, duration_ms: i64) -> bool {
    j matches Json::Object(fs) && {
        &&& fs@.len() == 6
        &&& is_str_field(fs@[0], "status"@, "success"@)
        &&& is_num_field(fs@[1], "duration_ms"@, duration_ms as int)
        &&& is_num_field(fs@[2], "passed"@, (outcome.passed as i64) as int)
        &&& is_num_field(fs@[3], "failed"@, (outcome.failed as i64) as int)
        &&& is_str_field(fs@[4], "binary"@, outcome.binary@)
        &&& fs@[5].0@ == "errors"@
        &&& (fs@[5].1 matches Json::Array(es) && es@.len() == 0)
    }
}

/// The single `errors` entry of a failed test or benchmark run.
pub open spec fn is_run_error_entry(j: Json, err: CbldError) -> bool {
    j matches Json::Object(fs) && {
        &&& fs@.len() == 2
        &&& is_str_field(fs@[0], "severity"@, "error"@)
        &&& is_str_field(fs@[1], "message"@, error_message(err))
    }
}

/// `{"status":"failure","duration_ms":N,"passed":0,"failed":0,"errors":[{"severity":"error","message":"..."}]}`
pub open spec fn is_test_failure_payload(j: Json, err: CbldError, duration_ms: i64) -> bool {
    j matches Json::Object(fs) && {
        &&& fs@.len() == 5
        &&& is_str_field(fs@[0], "status"@, "failure"@)
        &&& is_num_field(fs@[1], "duration_ms"@, duration_ms as int)
        &&& is_num_field(fs@[2], "passed"@, 0)
        &&& is_num_field(fs@[3], "failed"@, 0)
        &&& fs@[4].0@ == "errors"@
        &&& (fs@[4].1 matches Json::Array(es) && es@.len() == 1 && is_run_error_entry(es@[0], err))
    }
}

/// A benchmark row as an entry of `benchmarks`.
pub open spec fn is_bench_row_entry(j: Json, row: BenchmarkResult) -> bool {
    j matches Json::Object(fs) && {
        &&& fs@.len() == 4
        &&& is_str_field(fs@[0], "name"@, row.name@)
        &&& is_num_field(fs@[1], "real_time_ns"@, row.real_time_ns as int)
        &&& is_num_field(fs@[2], "cpu_time_ns"@, row.cpu_time_ns as int)
        &&& is_num_field(fs@[3], "iterations"@, row.iterations as int)
    }
}

/// `{"status":"success","duration_ms":N,"binary":"...","benchmarks":[{...}],"errors":[]}`
pub open spec fn is_bench_success_payload(j: Json, rows: Seq<BenchmarkResult>, binary: Seq<char>, duration_ms: i64) -> bool {
    j matches Json::Object(fs) && {
        &&& fs@.len() == 5
        &&& is_str_field(fs@[0], "status"@, "success"@)
        &&& is_num_field(fs@[1], "duration_ms"@, duration_ms as int)
        &&& is_str_field(fs@[2], "binary"@, binary)
        &&& fs@[3].0@ == "benchmarks"@
        &&& (fs@[3].1 matches Json::Array(bs) && bs@.len() == rows.len() && forall|i: int|
            0 <= i < rows.len() ==> #[trigger] is_bench_row_entry(bs@[i], rows[i]))
        &&& fs@[4].0@ == "errors"@
        &&& (fs@[4].1 matches Json::Array(es) && es@.len() == 0)
    }
}

/// `{"status":"failure","duration_ms":N,"errors":[{"severity":"error","message":"..."}]}`
pub open spec fn is_bench_failure_payload(j: Json, err: CbldError, duration_ms: i64) -> bool {
    j matches Json::Object(fs) && {
        &&& fs@.len() == 3
        &&& is_str_field(fs@[0], "status"@, "failure"@)
        &&& is_num_field(fs@[1], "duration_ms"@, duration_ms as int)
        &&& fs@[2].0@ == "errors"@
        &&& (fs@[2].1 matches Json::Array(es) && es@.len() == 1 && is_run_error_entry(es@[0], err))
    }
}

/// `{"status":"success"}`, or `{"status":"failure","message":"..."}` for an error.
pub open spec fn is_status_payload(j: Json, err: Option<CbldError>) -> bool {
    j matches Json::Object(fs) && match err {
        None => fs@.len() == 1 && is_str_field(fs@[0], "status"@, "success"@),
        Some(e) => fs@.len() == 2 && is_str_field(fs@[0], "status"@, "failure"@) && is_str_field(
            fs@[1],
            "message"@,
            error_message(e),
        ),
    }
}

fn run_error_entries(err: &CbldError) -> (j: Json)
    ensures
        j matches Json::Array(es) && es@.len() == 1 && is_run_error_entry(es@[0], *err),
{
    let mut fs: Vec<(String, Json)> = Vec::new();
    fs.push(field("severity", Json::str("error")));
    fs.push(field("message", Json::Str(err.message())));
    let mut es: Vec<Json> = Vec::new();
    es.push(Json::Object(fs));
    Json::Array(es)
}

/// The summary of a test run that passed.
pub fn test_success_payload(outcome: &TestOutcome, duration_ms: i64) -> (j: Json)
    ensures
        is_test_success_payload(j, *outcome, duration_ms),
{
    let mut fs: Vec<(String, Json)> = Vec::new();
    fs.push(field("status", Json::str("success")));
    fs.push(field("duration_ms", Json::Number(duration_ms)));
    fs.push(field("passed", Json::Number(outcome.passed as i64)));
    fs.push(field("failed", Json::Number(outcome.failed as i64)));
    fs.push(field("binary", Json::str(outcome.binary.as_str())));
    fs.push(field("errors", Json::Array(Vec::new())));
    Json::Object(fs)
}

/// The summary of a test run that failed.
pub fn test_failure_payload(err: &CbldError, duration_ms: i64) -> (j: Json)
    ensures
        is_test_failure_payload(j, *err, duration_ms),
{
    let mut fs: Vec<(String, Json)> = Vec::new();
    fs.push(field("status", Json::str("failure")));
    fs.push(field("duration_ms", Json::Number(duration_ms)));
    fs.push(field("passed", Json::Number(0)));
    fs.push(field("failed", Json::Number(0)));
    fs.push(field("errors", run_error_entries(err)));
    Json::Object(fs)
}

/// The summary of a benchmark run that produced `rows`.
pub fn bench_success_payload(rows: &[BenchmarkResult], binary: &str, duration_ms: i64) -> (j: Json)
    ensures
        is_bench_success_payload(j, rows@, binary@, duration_ms),
{
    let mut bs: Vec<Json> = Vec::new();
    for i in 0..rows.len()
        invariant
            bs@.len() == i,
            forall|k: int| 0 <= k < i ==> #[trigger] is_bench_row_entry(bs@[k], rows@[k]),
    {
        let row = &rows[i];
        let mut fs: Vec<(String, Json)> = Vec::new();
        fs.push(field("name", Json::str(row.name.as_str())));
        fs.push(field("real_time_ns", Json::Number(row.real_time_ns)));
        fs.push(field("cpu_time_ns", Json::Number(row.cpu_time_ns)));
        fs.push(field("iterations", Json::Number(row.iterations)));
        bs.push(Json::Object(fs));
    }
    let mut fs: Vec<(String, Json)> = Vec::new();
    fs.push(field("status", Json::str("success")));
    fs.push(field("duration_ms", Json::Number(duration_ms)));
    fs.push(field("binary", Json::str(binary)));
    fs.push(field("benchmarks", Json::Array(bs)));
    fs.push(field("errors", Json::Array(Vec::new())));
    Json::Object(fs)
}

/// The summary of a benchmark run that failed.
pub fn bench_failure_payload(err: &CbldError, duration_ms: i64) -> (j: Json)
    ensures
        is_bench_failure_payload(j, *err, duration_ms),
{
    let mut fs: Vec<(String, Json)> = Vec::new();
    fs.push(field("status", Json::str("failure")));
    fs.push(field("duration_ms", Json::Number(duration_ms)));
    fs.push(field("errors", run_error_entries(err)));
    Json::Object(fs)
}

/// The `--json` line of a command that reports only whether it worked.
pub fn status_payload(err: Option<&CbldError>) -> (j: Json)
    ensures
        is_status_payload(j, match err {
            Some(e) => Some(*e),
            None => None,
        }),
{
    let mut fs: Vec<(String, Json)> = Vec::new();
    match err {
        None => {
            fs.push(field("status", Json::str("success")));
        },
        Some(e) => {
            fs.push(field("status", Json::str("failure")));
            fs.push(field("message", Json::Str(e.message())));
        },
    }
    Json::Object(fs)
}

/// The verdict on a test run: any failed test fails the command with the
/// run's output; otherwise the counts and the binary are reported.
pub fn test_verdict(passed: usize, failed: usize, binary: String, output: String) -> (r: Result<TestOutcome>)
    ensures
        failed > 0 ==> (r matches Err(CbldError::CommandFailed { program, code, stderr }) && program@ == binary@
            && code == Some(1i32) && stderr@ == output@),
        failed == 0 ==> (r matches Ok(t) && t.passed == passed && t.failed == 0 && t.binary@ == binary@),
{
    if failed > 0 {
        return Err(CbldError::CommandFailed { program: binary, code: Some(1), stderr: output });
    }
    Ok(TestOutcome { passed, failed, binary })
}

} // verus!
