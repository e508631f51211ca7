//! `cbld fmt`: clang-format over the package's sources and public headers.
//!
//! Same role as `cargo fmt`: rewrite in place, or `--check` and fail if
//! anything would change. Style comes from `.clang-format` when present
//! (`-style=file`); otherwise LLVM, clang-format's own default.
use vstd::prelude::*;

use crate::text::{extend_strings, views};

verus! {

/// The arguments clang-format is run with: style options, then either a
/// dry run that fails on any change (`check`) or an in-place rewrite, then
/// the files.
pub open spec fn format_args(files: Seq<String>, check: bool) -> Seq<Seq<char>> {
    seq!["-style=file"@, "-fallback-style=LLVM"@] + (if check {
        seq!["--dry-run"@, "--Werror"@]
    } else {
        seq!["-i"@]
    }) + views(files)
}

/// The clang-format command line for `files`.
pub fn format_invocation(files: &[String], check: bool) -> (args: Vec<String>)
    ensures
        views(args@) == format_args(files@, check),
{
    let mut args: Vec<String> = Vec::new();
    args.push("-style=file".to_owned());
    args.push("-fallback-style=LLVM".to_owned());
    if check {
        args.push("--dry-run".to_owned());
        args.push("--Werror".to_owned());
    } else {
        args.push("-i".to_owned());
    }
    let ghost head = views(args@);
    extend_strings(&mut args, files);
    assert(head =~= seq!["-style=file"@, "-fallback-style=LLVM"@] + (if check {
        seq!["--dry-run"@, "--Werror"@]
    } else {
        seq!["-i"@]
    }));
    args
}

} // verus!
