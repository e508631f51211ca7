//! Errors of the library and their messages.
//!
//! A single concrete error enum: every fallible operation returns
//! `Result<T, CbldError>`, and call sites `match` on exactly what went wrong.
use vstd::prelude::*;

use crate::text::{int_digits, nat_digits, push_i64, push_str, push_trimmed, push_u64, trim_ws};

verus! {

/// One structured compiler diagnostic, carried by [`CbldError::Compilation`]
/// so that `--json` build output can render what the terminal shows.
#[derive(Debug)]
pub struct CompileDiagnostic {
    pub file: String,
    pub line: usize,
    pub column: usize,
    pub severity: String,
    pub message: String,
}

/// The single error type. Paths are held as text, and an operating-system
/// error as its message.
#[derive(Debug)]
pub enum CbldError {
    /// An underlying I/O failure, annotated with the path it concerned.
    Io { path: Option<String>, message: String },
    /// The manifest (`cbld.toml`) could not be parsed.
    ManifestParse { path: String, message: String },
    /// The lockfile (`cbld.lock`) could not be parsed.
    LockParse { path: String, message: String },
    /// Serialization back to TOML failed.
    Serialize(String),
    /// A required file or directory in the strict layout was missing.
    LayoutViolation(String),
    /// The repository does not adhere to the cbld standard.
    NotCbldStandard { path: String, reason: String },
    /// A dependency could not be resolved.
    Resolution(String),
    /// An external command failed to even start.
    CommandSpawn { program: String, message: String },
    /// An external command ran but exited non-zero.
    CommandFailed { program: String, code: Option<i32>, stderr: String },
    /// Compilation failed: the count of failed translation units and the
    /// structured diagnostics behind them.
    Compilation { failures: usize, diagnostics: Vec<CompileDiagnostic> },
    /// `cbld check` failed: some source could not be analyzed.
    Analysis { failures: usize },
    /// `cbld fmt --check` would rewrite at least one file.
    FmtCheck,
    /// `cbld lint` failed.
    Lint,
    /// A configuration value was invalid.
    Config(String),
    /// The user's environment is missing something required.
    Environment(String),
}

/// Convenience alias so signatures stay short.
pub type Result<T> = core::result::Result<T, CbldError>;

/// The human-readable message of an error.
pub open spec fn error_message(e: CbldError) -> Seq<char> {
    match e {
        CbldError::Io { path, message } => match path {
            Some(p) => "I/O error at '"@ + p@ + "': "@ + message@,
            None => "I/O error: "@ + message@,
        },
        CbldError::ManifestParse { path, message } =>
            "failed to parse manifest '"@ + path@ + "': "@ + message@,
        CbldError::LockParse { path, message } =>
            "failed to parse lockfile '"@ + path@ + "': "@ + message@,
        CbldError::Serialize(m) => "failed to serialize: "@ + m@,
        CbldError::LayoutViolation(m) => "project layout violation: "@ + m@,
        CbldError::NotCbldStandard { path, reason } =>
            "'"@ + path@ + "' does not follow the cbld standard: "@ + reason@,
        CbldError::Resolution(m) => "dependency resolution failed: "@ + m@,
        CbldError::CommandSpawn { program, message } =>
            "failed to launch '"@ + program@ + "': "@ + message@ + " (is it installed and on PATH?)"@,
        CbldError::CommandFailed { program, code, stderr } =>
            "'"@ + program@ + "' exited with status "@ + match code {
                Some(c) => int_digits(c as int),
                None => "signal"@,
            } + ":\n"@ + trim_ws(stderr@),
        CbldError::Compilation { failures, .. } =>
            "build failed: "@ + nat_digits(failures as nat) + " translation unit(s) did not compile"@,
        CbldError::Analysis { failures } =>
            "check failed: "@ + nat_digits(failures as nat) + " file(s) could not be analyzed"@,
        CbldError::FmtCheck => "fmt --check failed: clang-format would rewrite one or more files"@,
        CbldError::Lint => "lint failed: clang-tidy reported findings"@,
        CbldError::Config(m) => "invalid configuration: "@ + m@,
        CbldError::Environment(m) => "environment error: "@ + m@,
    }
}

impl CbldError {
    /// The message of this error, as the terminal shows it.
    pub fn message(&self) -> (r: String)
        ensures
            r@ == error_message(*self),
    {
        let mut out = String::new();
        match self {
            CbldError::Io { path, message } => match path {
                Some(p) => {
                    push_str(&mut out, "I/O error at '");
                    push_str(&mut out, p.as_str());
                    push_str(&mut out, "': ");
                    push_str(&mut out, message.as_str());
                },
                None => {
                    push_str(&mut out, "I/O error: ");
                    push_str(&mut out, message.as_str());
                },
            },
            CbldError::ManifestParse { path, message } => {
                push_str(&mut out, "failed to parse manifest '");
                push_str(&mut out, path.as_str());
                push_str(&mut out, "': ");
                push_str(&mut out, message.as_str());
            },
            CbldError::LockParse { path, message } => {
                push_str(&mut out, "failed to parse lockfile '");
                push_str(&mut out, path.as_str());
                push_str(&mut out, "': ");
                push_str(&mut out, message.as_str());
            },
            CbldError::Serialize(m) => {
                push_str(&mut out, "failed to serialize: ");
                push_str(&mut out, m.as_str());
            },
            CbldError::LayoutViolation(m) => {
                push_str(&mut out, "project layout violation: ");
                push_str(&mut out, m.as_str());
            },
            CbldError::NotCbldStandard { path, reason } => {
                push_str(&mut out, "'");
                push_str(&mut out, path.as_str());
                push_str(&mut out, "' does not follow the cbld standard: ");
                push_str(&mut out, reason.as_str());
            },
            CbldError::Resolution(m) => {
                push_str(&mut out, "dependency resolution failed: ");
                push_str(&mut out, m.as_str());
            },
            CbldError::CommandSpawn { program, message } => {
                push_str(&mut out, "failed to launch '");
                push_str(&mut out, program.as_str());
                push_str(&mut out, "': ");
                push_str(&mut out, message.as_str());
                push_str(&mut out, " (is it installed and on PATH?)");
            },
            CbldError::CommandFailed { program, code, stderr } => {
                push_str(&mut out, "'");
                push_str(&mut out, program.as_str());
                push_str(&mut out, "' exited with status ");
                match code {
                    Some(c) => push_i64(&mut out, *c as i64),
                    None => push_str(&mut out, "signal"),
                }
                push_str(&mut out, ":\n");
                push_trimmed(&mut out, stderr.as_str());
            },
            CbldError::Compilation { failures, .. } => {
                push_str(&mut out, "build failed: ");
                push_u64(&mut out, *failures as u64);
                push_str(&mut out, " translation unit(s) did not compile");
            },
            CbldError::Analysis { failures } => {
                push_str(&mut out, "check failed: ");
                push_u64(&mut out, *failures as u64);
                push_str(&mut out, " file(s) could not be analyzed");
            },
            CbldError::FmtCheck => {
                push_str(&mut out, "fmt --check failed: clang-format would rewrite one or more files");
            },
            CbldError::Lint => {
                push_str(&mut out, "lint failed: clang-tidy reported findings");
            },
            CbldError::Config(m) => {
                push_str(&mut out, "invalid configuration: ");
                push_str(&mut out, m.as_str());
            },
            CbldError::Environment(m) => {
                push_str(&mut out, "environment error: ");
                push_str(&mut out, m.as_str());
            },
        }
        out
    }
}

/// Attach a path to an I/O failure (held as its message) after the fact.
pub trait IoPathExt<T>: Sized {
    fn path_ctx(self, path: &str) -> Result<T>;
}

impl<T> IoPathExt<T> for core::result::Result<T, String> {
    fn path_ctx(self, path: &str) -> (r: Result<T>)
        ensures
            match self {
                Ok(v) => r == Ok::<T, CbldError>(v),
                Err(m) => r matches Err(CbldError::Io { path: Some(p), message })
                    && p@ == path@ && message@ == m@,
            },
    {
        match self {
            Ok(v) => Ok(v),
            Err(m) => {
                let mut p = String::new();
                push_str(&mut p, path);
                Err(CbldError::Io { path: Some(p), message: m })
            },
        }
    }
}

} // verus!
