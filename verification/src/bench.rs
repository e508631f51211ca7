//! Benchmark output parsing for `cbld bench`.
//!
//! The runner follows Google Benchmark's console format. It also accepts any
//! benchmark executable that prints the same six-column result rows, which
//! keeps the command useful for small custom runners.
//!
//! A row's times are printed as floating-point numbers. Turning them into
//! nanoseconds is floating-point arithmetic and happens outside the library;
//! the library reads the rows and their units, and keeps a row once both of
//! its times have been converted.
use vstd::prelude::*;

use crate::error::{CbldError, Result};
use crate::language::{language_of, Language};
use crate::path::{join, join_spec, lists, paths_ascending, sorted_paths};
use crate::text::{
    chars_of, contains_char, contains_chars, has_infix, has_prefix, lines_of, lines_spec,
    push_str, starts_with_chars, string_from, sub_chars, views, words_of, words_spec,
};

verus! {

/// One parsed benchmark row, with times normalized to nanoseconds.
#[derive(Debug, Clone, PartialEq, Eq)]
pub struct BenchmarkResult {
    pub name: String,
    pub real_time_ns: i64,
    pub cpu_time_ns: i64,
    pub iterations: i64,
}

/// Output and parsed rows from one benchmark process.
#[derive(Debug, Clone)]
pub struct BenchmarkRun {
    pub results: Vec<BenchmarkResult>,
    pub output: String,
}

impl View for BenchmarkResult {
    type V = (Seq<char>, i64, i64, i64);

    open spec fn view(&self) -> (Seq<char>, i64, i64, i64) {
        (self.name@, self.real_time_ns, self.cpu_time_ns, self.iterations)
    }
}

// ---------------------------------------------------------------------------
// Decimal numbers.
// ---------------------------------------------------------------------------

pub open spec fn is_digit(c: char) -> bool {
    '0' <= c && c <= '9'
}

pub open spec fn digit_val(c: char) -> int {
    (c as int) - ('0' as int)
}

/// Every character is an ASCII digit.
pub open spec fn all_digits(s: Seq<char>) -> bool {
    forall|i: int| 0 <= i < s.len() ==> is_digit(#[trigger] s[i])
}

/// The number that a digit string denotes.
pub open spec fn digits_value(d: Seq<char>) -> int
    decreases d.len(),
{
    if d.len() == 0 {
        0
    } else {
        digits_value(d.drop_last()) * 10 + digit_val(d.last())
    }
}

/// `c` in lower case, for ASCII letters.
pub open spec fn ascii_lower(c: char) -> char {
    if 'A' <= c && c <= 'Z' {
        ((c as u32) + 32) as char
    } else {
        c
    }
}

/// An optionally signed run of digits: its value.
pub open spec fn signed_digits(s: Seq<char>) -> Option<int> {
    let neg = s.len() > 0 && s[0] == '-';
    let body = if s.len() > 0 && (s[0] == '+' || s[0] == '-') { s.drop_first() } else { s };
    if body.len() > 0 && all_digits(body) {
        Some(if neg { -digits_value(body) } else { digits_value(body) })
    } else {
        None
    }
}

/// `str::parse::<i64>`.
pub open spec fn parse_i64_spec(t: Seq<char>) -> Option<i64> {
    match signed_digits(t) {
        Some(v) => if i64::MIN <= v <= i64::MAX { Some(v as i64) } else { None },
        None => None,
    }
}


pub proof fn lemma_digits_value_nonneg(d: Seq<char>)
    requires
        all_digits(d),
    ensures
        digits_value(d) >= 0,
    decreases d.len(),
{
    if d.len() > 0 {
        assert(all_digits(d.drop_last()));
        lemma_digits_value_nonneg(d.drop_last());
        assert(is_digit(d[d.len() - 1]));
    }
}


/// The value of a digit string, saturated at `limit`.
pub(crate) fn saturated_value(d: &[char], limit: u128) -> (r: u128)
    requires
        all_digits(d@),
        0 < limit <= 0x10000000000000000000000000,
    ensures
        r as int == if digits_value(d@) < limit { digits_value(d@) } else { limit as int },
{
    let mut acc: u128 = 0;
    assert(d@.take(0) =~= seq![]);
    for q in 0..d.len()
        invariant
            all_digits(d@),
            0 < limit <= 0x10000000000000000000000000,
            acc as int == if digits_value(d@.take(q as int)) < limit { digits_value(d@.take(q as int)) } else { limit as int },
    {
        assert(d@.take(q + 1).drop_last() =~= d@.take(q as int));
        assert(is_digit(d@[q as int]));
        assert(all_digits(d@.take(q as int)));
        proof {
            lemma_digits_value_nonneg(d@.take(q as int));
        }
        let dv: u128 = ((d[q] as u32) - ('0' as u32)) as u128;
        let next = acc * 10 + dv;
        acc = if next < limit { next } else { limit };
    }
    assert(d@.take(d@.len() as int) =~= d@);
    acc
}

/// Whether every character is an ASCII digit.
pub(crate) fn only_digits(d: &[char]) -> (r: bool)
    ensures
        r == all_digits(d@),
{
    for q in 0..d.len()
        invariant
            forall|i: int| 0 <= i < q ==> is_digit(#[trigger] d@[i]),
    {
        if !(d[q] >= '0' && d[q] <= '9') {
            return false;
        }
    }
    true
}

/// An optionally signed digit run: its sign and its value saturated at `limit`.
fn signed_value(s: &[char], limit: u128) -> (r: Option<(bool, u128)>)
    requires
        0 < limit <= 0x10000000000000000000000000,
    ensures
        match signed_digits(s@) {
            Some(v) => r matches Some((neg, m)) && (neg ==> v <= 0) && (!neg ==> v >= 0)
                && m as int == if (if v < 0 { -v } else { v }) < limit { if v < 0 { -v } else { v } } else { limit as int },
            None => r is None,
        },
{
    let n = s.len();
    let neg = n > 0 && s[0] == '-';
    let start: usize = if n > 0 && (s[0] == '+' || s[0] == '-') { 1 } else { 0 };
    let body = sub_chars(s, start, n);
    assert(body@ == if s@.len() > 0 && (s@[0] == '+' || s@[0] == '-') { s@.drop_first() } else { s@ }) by {
        if start == 0 {
            assert(s@.subrange(0, n as int) =~= s@);
        } else {
            assert(s@.subrange(1, n as int) =~= s@.drop_first());
        }
    }
    if body.len() == 0 || !only_digits(&body) {
        return None;
    }
    proof {
        lemma_digits_value_nonneg(body@);
    }
    Some((neg, saturated_value(&body, limit)))
}

/// `str::parse::<i64>`.
pub fn parse_i64(t: &[char]) -> (r: Option<i64>)
    ensures
        r == parse_i64_spec(t@),
{
    match signed_value(t, 10000000000000000000u128) {
        Some((neg, m)) => {
            if neg {
                if m > 9223372036854775808u128 {
                    None
                } else {
                    Some((-(m as i128)) as i64)
                }
            } else {
                if m > 9223372036854775807u128 {
                    None
                } else {
                    Some(m as i64)
                }
            }
        },
        None => None,
    }
}

// ---------------------------------------------------------------------------
// Console rows.
// ---------------------------------------------------------------------------

/// One result row as the console prints it, before its times are converted:
/// the benchmark's name, each time as printed together with the number of
/// nanoseconds in its unit, and the iteration count.
#[derive(Debug, Clone, PartialEq, Eq)]
pub struct ConsoleRow {
    pub name: String,
    pub real_time: String,
    pub real_scale: i64,
    pub cpu_time: String,
    pub cpu_scale: i64,
    pub iterations: i64,
}

impl View for ConsoleRow {
    type V = (Seq<char>, Seq<char>, i64, Seq<char>, i64, i64);

    open spec fn view(&self) -> (Seq<char>, Seq<char>, i64, Seq<char>, i64, i64) {
        (self.name@, self.real_time@, self.real_scale, self.cpu_time@, self.cpu_scale, self.iterations)
    }
}

/// Nanoseconds in one time unit of the console format: `ns`, `us`, `ms`
/// or `s`; `None` for any other unit.
pub open spec fn unit_scale(unit: Seq<char>) -> Option<i64> {
    if unit == seq!['n', 's'] {
        Some(1)
    } else if unit == seq!['u', 's'] {
        Some(1000)
    } else if unit == seq!['m', 's'] {
        Some(1000000)
    } else if unit == seq!['s'] {
        Some(1000000000)
    } else {
        None
    }
}

/// The fields of a console row `name real unit cpu unit iterations` (more
/// fields are ignored): `None` for a line with fewer than six fields, a
/// unit outside `ns`, `us`, `ms`, `s`, or an iteration count that is not an
/// `i64`.
pub open spec fn console_fields(line: Seq<char>) -> Option<(Seq<char>, Seq<char>, i64, Seq<char>, i64, i64)> {
    let f = words_spec(line);
    if f.len() < 6 {
        None
    } else {
        match (unit_scale(f[2]), unit_scale(f[4]), parse_i64_spec(f[5])) {
            (Some(rs), Some(cs), Some(iters)) => Some((f[0], f[1], rs, f[3], cs, iters)),
            _ => None,
        }
    }
}

/// The console rows among `lines`, in order.
pub open spec fn console_lines(lines: Seq<Seq<char>>) -> Seq<(Seq<char>, Seq<char>, i64, Seq<char>, i64, i64)>
    decreases lines.len(),
{
    if lines.len() == 0 {
        seq![]
    } else {
        console_lines(lines.drop_last()) + match console_fields(lines.last()) {
            Some(r) => seq![r],
            None => seq![],
        }
    }
}

/// The console rows of a benchmark's output, in order.
pub open spec fn console_output(output: Seq<char>) -> Seq<(Seq<char>, Seq<char>, i64, Seq<char>, i64, i64)> {
    console_lines(lines_spec(output))
}

/// A console row whose two times were converted to nanoseconds: the
/// result row, when both conversions succeeded.
pub open spec fn converted_row(row: (ConsoleRow, Option<i64>, Option<i64>)) -> Option<(Seq<char>, i64, i64, i64)> {
    match (row.1, row.2) {
        (Some(real_ns), Some(cpu_ns)) => Some((row.0.name@, real_ns, cpu_ns, row.0.iterations)),
        _ => None,
    }
}

/// The result rows of `rows`, in order: one for each row whose two times
/// were converted.
pub open spec fn converted_rows(rows: Seq<(ConsoleRow, Option<i64>, Option<i64>)>) -> Seq<(Seq<char>, i64, i64, i64)>
    decreases rows.len(),
{
    if rows.len() == 0 {
        seq![]
    } else {
        converted_rows(rows.drop_last()) + match converted_row(rows.last()) {
            Some(r) => seq![r],
            None => seq![],
        }
    }
}

/// Nanoseconds in one time unit of the console format.
pub fn time_unit_scale(unit: &[char]) -> (r: Option<i64>)
    ensures
        r == unit_scale(unit@),
{
    assert(['n', 's']@ =~= seq!['n', 's']);
    assert(['u', 's']@ =~= seq!['u', 's']);
    assert(['m', 's']@ =~= seq!['m', 's']);
    assert(['s']@ =~= seq!['s']);
    if crate::text::chars_eq(unit, &['n', 's']) {
        Some(1)
    } else if crate::text::chars_eq(unit, &['u', 's']) {
        Some(1000)
    } else if crate::text::chars_eq(unit, &['m', 's']) {
        Some(1000000)
    } else if crate::text::chars_eq(unit, &['s']) {
        Some(1000000000)
    } else {
        None
    }
}

/// The fields of one console line; `None` for a line without the shape of
/// a result row (headers, aggregates, malformed rows).
fn console_row_of(line: &[char]) -> (r: Option<ConsoleRow>)
    ensures
        match console_fields(line@) {
            Some(row) => r matches Some(c) && c@ == row,
            None => r is None,
        },
{
    let fields = words_of(line);
    let ghost f = words_spec(line@);
    if fields.len() < 6 {
        return None;
    }
    assert(forall|i: int| 0 <= i < fields@.len() ==> fields@[i]@ == f[i]) by {
        assert forall|i: int| 0 <= i < fields@.len() implies fields@[i]@ == f[i] by {
            assert(fields@.map_values(|w: Vec<char>| w@)[i] == fields@[i]@);
        }
    }
    let real_scale = match time_unit_scale(&fields[2]) {
        Some(v) => v,
        None => return None,
    };
    let cpu_scale = match time_unit_scale(&fields[4]) {
        Some(v) => v,
        None => return None,
    };
    let iterations = match parse_i64(&fields[5]) {
        Some(v) => v,
        None => return None,
    };
    Some(ConsoleRow {
        name: string_from(&fields[0]),
        real_time: string_from(&fields[1]),
        real_scale,
        cpu_time: string_from(&fields[3]),
        cpu_scale,
        iterations,
    })
}

/// The rows of a benchmark's console output shaped like
/// `name real unit cpu unit iterations`, in order, with their times still
/// as printed.
pub fn console_rows(output: &str) -> (r: Vec<ConsoleRow>)
    ensures
        r@.map_values(|c: ConsoleRow| c@) == console_output(output@),
{
    let v = chars_of(output);
    let lines = lines_of(&v);
    let ghost ls = lines_spec(v@);
    let mut out: Vec<ConsoleRow> = Vec::new();
    assert(out@.map_values(|c: ConsoleRow| c@) =~= console_lines(ls.take(0)));
    for i in 0..lines.len()
        invariant
            lines@.map_values(|l: Vec<char>| l@) == ls,
            out@.map_values(|c: ConsoleRow| c@) == console_lines(ls.take(i as int)),
    {
        assert(lines@.map_values(|l: Vec<char>| l@)[i as int] == lines@[i as int]@);
        assert(ls.take(i + 1).drop_last() =~= ls.take(i as int));
        let ghost before = out@.map_values(|c: ConsoleRow| c@);
        match console_row_of(&lines[i]) {
            Some(row) => {
                out.push(row);
                assert(out@.map_values(|c: ConsoleRow| c@) =~= before.push(row@));
            },
            None => {},
        }
        assert(console_lines(ls.take(i + 1)) =~= before + match console_fields(ls[i as int]) {
            Some(r) => seq![r],
            None => seq![],
        });
    }
    assert(ls.take(ls.len() as int) =~= ls);
    out
}

/// The result rows of a benchmark run, given its console rows each with
/// its real and CPU time converted to nanoseconds (`None` where the time
/// is not a finite number). A row is kept exactly when both of its times
/// were converted; the rows keep their order.
pub fn parse_console_output(rows: Vec<(ConsoleRow, Option<i64>, Option<i64>)>) -> (r: Vec<BenchmarkResult>)
    ensures
        r@.map_values(|b: BenchmarkResult| b@) == converted_rows(rows@),
{
    let mut out: Vec<BenchmarkResult> = Vec::new();
    let n = rows.len();
    assert(out@.map_values(|b: BenchmarkResult| b@) =~= converted_rows(rows@.take(0)));
    for i in 0..n
        invariant
            n == rows@.len(),
            out@.map_values(|b: BenchmarkResult| b@) == converted_rows(rows@.take(i as int)),
    {
        assert(rows@.take(i + 1).drop_last() =~= rows@.take(i as int));
        let ghost before = out@.map_values(|b: BenchmarkResult| b@);
        let row = &rows[i].0;
        match (rows[i].1, rows[i].2) {
            (Some(real_time_ns), Some(cpu_time_ns)) => {
                let result = BenchmarkResult {
                    name: row.name.clone(),
                    real_time_ns,
                    cpu_time_ns,
                    iterations: row.iterations,
                };
                out.push(result);
                assert(out@.map_values(|b: BenchmarkResult| b@) =~= before.push(result@));
            },
            _ => {},
        }
        assert(converted_rows(rows@.take(i + 1)) =~= before + match converted_row(rows@[i as int]) {
            Some(r) => seq![r],
            None => seq![],
        });
    }
    assert(rows@.take(n as int) =~= rows@);
    out
}

/// The arguments a benchmark runner is started with: console output, and
/// `--benchmark_filter=<f>` when a filter is given.
pub fn benchmark_args(filter: Option<&str>) -> (r: Vec<String>)
    ensures
        views(r@) == seq!["--benchmark_format=console"@] + match filter {
            Some(f) => seq!["--benchmark_filter="@ + f@],
            None => seq![],
        },
{
    let mut args: Vec<String> = Vec::new();
    args.push("--benchmark_format=console".to_owned());
    let ghost first = args@[0]@;
    match filter {
        Some(f) => {
            let mut a = String::new();
            push_str(&mut a, "--benchmark_filter=");
            push_str(&mut a, f);
            args.push(a);
            assert(views(args@) =~= seq![first, a@]);
        },
        None => {
            assert(views(args@) =~= seq![first]);
        },
    }
    args
}

/// The message when a benchmark executable printed no result row.
pub open spec fn no_rows_message() -> Seq<char> {
    "benchmark executable produced no parseable result rows"@
}

/// What one run of a benchmark executable amounts to, from its exit status
/// (`success`, `code`), its combined output and the result rows parsed from
/// its standard output: a failed exit is an error carrying the output; a
/// run without rows is a layout error; otherwise the rows and the output.
pub fn benchmark_run_outcome(
    program: String,
    success: bool,
    code: Option<i32>,
    combined: String,
    results: Vec<BenchmarkResult>,
) -> (r: Result<BenchmarkRun>)
    ensures
        !success ==> (r matches Err(CbldError::CommandFailed { program: p, code: c, stderr: s }) && p@ == program@
            && c == code && s@ == combined@),
        success && results@.len() == 0 ==> (r matches Err(CbldError::LayoutViolation(m)) && m@ == no_rows_message()),
        success && results@.len() > 0 ==> (r matches Ok(run) && run.results@ == results@ && run.output@ == combined@),
{
    if !success {
        return Err(CbldError::CommandFailed { program, code, stderr: combined });
    }
    if results.len() == 0 {
        return Err(CbldError::LayoutViolation("benchmark executable produced no parseable result rows".to_owned()));
    }
    Ok(BenchmarkRun { results, output: combined })
}


/// A file name that marks a benchmark: `bench_*` or `*_bench.*`.
pub open spec fn is_bench_name(name: Seq<char>) -> bool {
    has_prefix(name, seq!['b', 'e', 'n', 'c', 'h', '_']) || has_infix(name, seq!['_', 'b', 'e', 'n', 'c', 'h', '.'])
}

/// Whether the file at `rel` (relative to the package root) is a
/// benchmark source: a C or C++ file anywhere under `benches/`,
/// `benchmarks/`, `bench/` or `src/benchmarks/`, or directly in `src/`
/// with a benchmark name.
pub open spec fn is_bench_source(rel: Seq<char>) -> bool {
    &&& language_of(rel) is Some
    &&& {
        ||| has_prefix(rel, seq!['b', 'e', 'n', 'c', 'h', 'e', 's', '/'])
        ||| has_prefix(rel, seq!['b', 'e', 'n', 'c', 'h', 'm', 'a', 'r', 'k', 's', '/'])
        ||| has_prefix(rel, seq!['b', 'e', 'n', 'c', 'h', '/'])
        ||| has_prefix(rel, seq!['s', 'r', 'c', '/', 'b', 'e', 'n', 'c', 'h', 'm', 'a', 'r', 'k', 's', '/'])
        ||| (has_prefix(rel, seq!['s', 'r', 'c', '/']) && !rel.skip(4).contains('/') && is_bench_name(rel.skip(4)))
    }
}

/// `k` is the path under `root` of a benchmark source among `files`.
pub open spec fn is_found_bench(root: Seq<char>, files: Seq<String>, k: Seq<char>) -> bool {
    exists|i: int| 0 <= i < files.len() && is_bench_source(files[i]@) && #[trigger] join_spec(root, files[i]@) == k
}

/// Some benchmark source among `files` is written in `lang`.
pub open spec fn has_bench_in(files: Seq<String>, lang: Language) -> bool {
    exists|i: int| 0 <= i < files.len() && #[trigger] is_bench_source(files[i]@) && language_of(files[i]@) == Some(lang)
}

/// The error text when a package has no benchmark sources.
pub open spec fn no_benches_message(root: Seq<char>) -> Seq<char> {
    "no benchmark sources found under "@ + root + "/benches, "@ + root + "/benchmarks, "@ + root
        + "/bench, or src/bench_*"@
}

/// Exec form of [`is_bench_source`].
fn bench_source(rel: &str) -> (r: bool)
    ensures
        r == is_bench_source(rel@),
{
    if Language::from_extension(rel).is_none() {
        return false;
    }
    let v = chars_of(rel);
    let benches = vec!['b', 'e', 'n', 'c', 'h', 'e', 's', '/'];
    let benchmarks = vec!['b', 'e', 'n', 'c', 'h', 'm', 'a', 'r', 'k', 's', '/'];
    let bench = vec!['b', 'e', 'n', 'c', 'h', '/'];
    let src_benchmarks = vec!['s', 'r', 'c', '/', 'b', 'e', 'n', 'c', 'h', 'm', 'a', 'r', 'k', 's', '/'];
    let src = vec!['s', 'r', 'c', '/'];
    let prefix = vec!['b', 'e', 'n', 'c', 'h', '_'];
    let infix = vec!['_', 'b', 'e', 'n', 'c', 'h', '.'];
    assert(benches@ == seq!['b', 'e', 'n', 'c', 'h', 'e', 's', '/']);
    assert(benchmarks@ == seq!['b', 'e', 'n', 'c', 'h', 'm', 'a', 'r', 'k', 's', '/']);
    assert(bench@ == seq!['b', 'e', 'n', 'c', 'h', '/']);
    assert(src_benchmarks@ == seq!['s', 'r', 'c', '/', 'b', 'e', 'n', 'c', 'h', 'm', 'a', 'r', 'k', 's', '/']);
    assert(src@ == seq!['s', 'r', 'c', '/']);
    assert(prefix@ == seq!['b', 'e', 'n', 'c', 'h', '_'] && infix@ == seq!['_', 'b', 'e', 'n', 'c', 'h', '.']);
    if starts_with_chars(&v, &benches) || starts_with_chars(&v, &benchmarks) || starts_with_chars(&v, &bench)
        || starts_with_chars(&v, &src_benchmarks) {
        return true;
    }
    if starts_with_chars(&v, &src) {
        let name = sub_chars(&v, 4, v.len());
        assert(name@ == v@.skip(4));
        return !contains_char(&name, '/') && (starts_with_chars(&name, &prefix) || contains_chars(&name, &infix));
    }
    false
}

/// Collect the benchmark sources of the package at `root`, given the paths
/// (relative to `root`, `/`-separated) of the files found below it. The
/// result is sorted and without repeats; finding none, or finding both C and
/// C++ sources, is an error.
pub fn collect_benchmark_sources(root: &str, files: &[String]) -> (r: Result<Vec<String>>)
    ensures
        !(exists|i: int| 0 <= i < files@.len() && #[trigger] is_bench_source(files@[i]@)) ==> (r matches Err(
            CbldError::LayoutViolation(m),
        ) && m@ == no_benches_message(root@)),
        (exists|i: int| 0 <= i < files@.len() && #[trigger] is_bench_source(files@[i]@)) && has_bench_in(
            files@,
            Language::C,
        ) && has_bench_in(files@, Language::Cpp) ==> (r matches Err(CbldError::LayoutViolation(m)) && m@
            == "benchmark suite mixes C and C++ sources"@),
        (exists|i: int| 0 <= i < files@.len() && #[trigger] is_bench_source(files@[i]@)) && !(has_bench_in(
            files@,
            Language::C,
        ) && has_bench_in(files@, Language::Cpp)) ==> (r matches Ok(v) && {
            &&& paths_ascending(v@)
            &&& forall|k: Seq<char>| #[trigger] lists(v@, k) <==> is_found_bench(root@, files@, k)
        }),
{
    let mut found: Vec<String> = Vec::new();
    let mut c_seen = false;
    let mut cpp_seen = false;
    for i in 0..files.len()
        invariant
            forall|k: Seq<char>| #[trigger] lists(found@, k) <==> (exists|j: int|
                0 <= j < i && is_bench_source(files@[j]@) && #[trigger] join_spec(root@, files@[j]@) == k),
            found@.len() == 0 <==> !(exists|j: int| 0 <= j < i && #[trigger] is_bench_source(files@[j]@)),
            c_seen == has_bench_in(files@.take(i as int), Language::C),
            cpp_seen == has_bench_in(files@.take(i as int), Language::Cpp),
    {
        let ghost before = found@;
        let ghost seen = files@.take(i as int);
        let ghost next = files@.take(i + 1);
        assert(next =~= seen.push(files@[i as int]));
        if bench_source(files[i].as_str()) {
            match Language::from_extension(files[i].as_str()) {
                Some(Language::C) => {
                    c_seen = true;
                },
                Some(Language::Cpp) => {
                    cpp_seen = true;
                },
                None => {},
            }
            found.push(join(root, files[i].as_str()));
            proof {
                assert(next[i as int] == files@[i as int]);
                assert forall|k: Seq<char>| #[trigger] lists(found@, k) <==> (exists|j: int|
                    0 <= j < i + 1 && is_bench_source(files@[j]@) && #[trigger] join_spec(root@, files@[j]@) == k) by {
                    if lists(found@, k) {
                        let a = choose|a: int| 0 <= a < found@.len() && #[trigger] found@[a]@ == k;
                        if a < before.len() {
                            assert(lists(before, k));
                        } else {
                            assert(join_spec(root@, files@[i as int]@) == k);
                        }
                    }
                    if exists|j: int| 0 <= j < i + 1 && is_bench_source(files@[j]@) && #[trigger] join_spec(root@, files@[j]@) == k {
                        let j = choose|j: int| 0 <= j < i + 1 && is_bench_source(files@[j]@) && #[trigger] join_spec(root@, files@[j]@) == k;
                        if j < i {
                            assert(lists(before, k));
                            let a = choose|a: int| 0 <= a < before.len() && #[trigger] before[a]@ == k;
                            assert(found@[a]@ == k);
                        } else {
                            assert(found@[before.len() as int]@ == k);
                        }
                    }
                }
                lemma_bench_langs_step(seen, files@[i as int], Language::C);
                lemma_bench_langs_step(seen, files@[i as int], Language::Cpp);
            }
        } else {
            proof {
                assert forall|k: Seq<char>| #[trigger] lists(found@, k) <==> (exists|j: int|
                    0 <= j < i + 1 && is_bench_source(files@[j]@) && #[trigger] join_spec(root@, files@[j]@) == k) by {
                    if exists|j: int| 0 <= j < i + 1 && is_bench_source(files@[j]@) && #[trigger] join_spec(root@, files@[j]@) == k {
                        let j = choose|j: int| 0 <= j < i + 1 && is_bench_source(files@[j]@) && #[trigger] join_spec(root@, files@[j]@) == k;
                        assert(j < i);
                    }
                }
                lemma_bench_langs_step(seen, files@[i as int], Language::C);
                lemma_bench_langs_step(seen, files@[i as int], Language::Cpp);
            }
        }
    }
    assert(files@.take(files@.len() as int) =~= files@);
    if found.len() == 0 {
        let mut m = String::new();
        push_str(&mut m, "no benchmark sources found under ");
        push_str(&mut m, root);
        push_str(&mut m, "/benches, ");
        push_str(&mut m, root);
        push_str(&mut m, "/benchmarks, ");
        push_str(&mut m, root);
        push_str(&mut m, "/bench, or src/bench_*");
        return Err(CbldError::LayoutViolation(m));
    }
    if c_seen && cpp_seen {
        return Err(CbldError::LayoutViolation("benchmark suite mixes C and C++ sources".to_owned()));
    }
    let sorted = sorted_paths(&found);
    proof {
        assert forall|k: Seq<char>| #[trigger] lists(sorted@, k) <==> is_found_bench(root@, files@, k) by {
            assert(lists(found@, k) <==> (exists|j: int|
                0 <= j < files@.len() && is_bench_source(files@[j]@) && #[trigger] join_spec(root@, files@[j]@) == k));
        }
    }
    Ok(sorted)
}

/// Extending the files by one updates which languages the benchmarks use.
proof fn lemma_bench_langs_step(seen: Seq<String>, f: String, lang: Language)
    ensures
        has_bench_in(seen.push(f), lang) == (has_bench_in(seen, lang) || (is_bench_source(f@) && language_of(f@)
            == Some(lang))),
{
    let next = seen.push(f);
    if has_bench_in(next, lang) {
        let i = choose|i: int| 0 <= i < next.len() && #[trigger] is_bench_source(next[i]@) && language_of(next[i]@) == Some(lang);
        if i < seen.len() {
            assert(next[i] == seen[i]);
            assert(is_bench_source(seen[i]@));
        }
    }
    if has_bench_in(seen, lang) {
        let i = choose|i: int| 0 <= i < seen.len() && #[trigger] is_bench_source(seen[i]@) && language_of(seen[i]@) == Some(lang);
        assert(next[i] == seen[i]);
        assert(is_bench_source(next[i]@));
    }
    if is_bench_source(f@) && language_of(f@) == Some(lang) {
        assert(next[seen.len() as int] == f);
        assert(is_bench_source(next[seen.len() as int]@));
    }
}

} // verus!
