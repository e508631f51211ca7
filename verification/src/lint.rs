//! `cbld lint`: clang-tidy over the same files `cbld fmt` touches.
//!
//! The cargo-clippy analog: extra lints beyond what `cbld build` already
//! reports as compiler warnings. `--deny-warnings` is clippy's `-D warnings`:
//! any finding fails the command.
use vstd::prelude::*;

use crate::text::{extend_strings, push_str, views};

verus! {

/// Default tidy checks when the package has no `.clang-tidy`: diagnostic
/// groups that overlap the compiler, plus bugprone/performance.
pub const DEFAULT_CHECKS: &'static str = "clang-diagnostic-*,bugprone-*,performance-*";

/// The clang-tidy arguments: quiet, headers of the package only, the
/// default checks unless the package configures its own, warnings as
/// errors when denied, the files, then `--` and the compiler's arguments.
pub open spec fn lint_args(
    files: Seq<String>,
    deny_warnings: bool,
    use_default_checks: bool,
    header_filter: Seq<char>,
    compiler_args: Seq<String>,
) -> Seq<Seq<char>> {
    seq!["-quiet"@, "-header-filter="@ + header_filter] + (if use_default_checks {
        seq!["-checks="@ + DEFAULT_CHECKS@]
    } else {
        seq![]
    }) + (if deny_warnings {
        seq!["-warnings-as-errors=*"@]
    } else {
        seq![]
    }) + views(files) + seq!["--"@] + views(compiler_args)
}

/// The clang-tidy command line for `files`.
pub fn lint_invocation(
    files: &[String],
    deny_warnings: bool,
    use_default_checks: bool,
    header_filter: &str,
    compiler_args: &[String],
) -> (args: Vec<String>)
    ensures
        views(args@) == lint_args(files@, deny_warnings, use_default_checks, header_filter@, compiler_args@),
{
    let mut args: Vec<String> = Vec::new();
    args.push("-quiet".to_owned());
    let mut filter = String::new();
    push_str(&mut filter, "-header-filter=");
    push_str(&mut filter, header_filter);
    args.push(filter);
    if use_default_checks {
        let mut checks = String::new();
        push_str(&mut checks, "-checks=");
        push_str(&mut checks, DEFAULT_CHECKS);
        args.push(checks);
    }
    if deny_warnings {
        args.push("-warnings-as-errors=*".to_owned());
    }
    let ghost head = views(args@);
    extend_strings(&mut args, files);
    args.push("--".to_owned());
    let ghost mid = views(args@);
    extend_strings(&mut args, compiler_args);
    assert(head =~= seq!["-quiet"@, "-header-filter="@ + header_filter@] + (if use_default_checks {
        seq!["-checks="@ + DEFAULT_CHECKS@]
    } else {
        seq![]
    }) + (if deny_warnings {
        seq!["-warnings-as-errors=*"@]
    } else {
        seq![]
    }));
    assert(mid =~= head + views(files@) + seq!["--"@]);
    args
}

/// Characters that carry meaning in clang-tidy's `-header-filter` regex.
pub open spec fn is_regex_meta(c: char) -> bool {
    c == '.' || c == '+' || c == '*' || c == '?' || c == '^' || c == '$' || c == '(' || c == ')'
        || c == '[' || c == ']' || c == '{' || c == '}' || c == '|' || c == '\\'
}

/// `s` with a backslash before each regex metacharacter.
pub open spec fn regex_escaped(s: Seq<char>) -> Seq<char>
    decreases s.len(),
{
    if s.len() == 0 {
        seq![]
    } else {
        regex_escaped(s.drop_last()) + if is_regex_meta(s.last()) {
            seq!['\\', s.last()]
        } else {
            seq![s.last()]
        }
    }
}

/// Escape a path so it is safe inside clang-tidy's `-header-filter` regex.
pub fn regex_escape(s: &str) -> (r: String)
    ensures
        r@ == regex_escaped(s@),
{
    let mut out = String::new();
    assert(s@.take(0) =~= seq![]);
    for c in iter: s.chars()
        invariant
            iter.seq() == s@,
            out@ == regex_escaped(s@.take(iter.index() as int)),
    {
        let ghost k = iter.index();
        assert(s@.take(k + 1).drop_last() =~= s@.take(k as int));
        if c == '.' || c == '+' || c == '*' || c == '?' || c == '^' || c == '$' || c == '('
            || c == ')' || c == '[' || c == ']' || c == '{' || c == '}' || c == '|' || c == '\\' {
            out.push('\\');
        }
        out.push(c);
        assert(out@ =~= regex_escaped(s@.take(k + 1)));
    }
    assert(s@.take(s@.len() as int) =~= s@);
    out
}

/// Law: clang-tidy is told to treat warnings as errors exactly when
/// warnings are denied, and runs the default checks exactly when the
/// package configures none; neither depends on the other (for file names
/// and compiler arguments that are not themselves these options).
pub proof fn lemma_lint_options(
    files: Seq<String>,
    deny_warnings: bool,
    use_default_checks: bool,
    header_filter: Seq<char>,
    compiler_args: Seq<String>,
)
    requires
        forall|i: int| 0 <= i < files.len() ==> #[trigger] files[i]@ != "-warnings-as-errors=*"@ && files[i]@ != "-checks="@
            + DEFAULT_CHECKS@,
        forall|i: int| 0 <= i < compiler_args.len() ==> #[trigger] compiler_args[i]@ != "-warnings-as-errors=*"@
            && compiler_args[i]@ != "-checks="@ + DEFAULT_CHECKS@,
    ensures
        lint_args(files, deny_warnings, use_default_checks, header_filter, compiler_args).contains(
            "-warnings-as-errors=*"@,
        ) <==> deny_warnings,
        lint_args(files, deny_warnings, use_default_checks, header_filter, compiler_args).contains(
            "-checks="@ + DEFAULT_CHECKS@,
        ) <==> use_default_checks,
{
    let w = "-warnings-as-errors=*"@;
    let k = "-checks="@ + DEFAULT_CHECKS@;
    let hf = "-header-filter="@ + header_filter;
    reveal_strlit("-warnings-as-errors=*");
    reveal_strlit("-checks=");
    reveal_strlit("-quiet");
    reveal_strlit("--");
    reveal_strlit("-header-filter=");
    let a = lint_args(files, deny_warnings, use_default_checks, header_filter, compiler_args);
    let opts = (if use_default_checks { seq![k] } else { seq![] }) + (if deny_warnings { seq![w] } else { seq![] });
    assert(a =~= seq!["-quiet"@, hf] + opts + views(files) + seq!["--"@] + views(compiler_args));
    assert(hf[1] == 'h');
    assert(w[1] == 'w');
    assert(k[1] == 'c');
    assert(hf != w && hf != k);
    assert("-quiet"@ != w && "-quiet"@ != k);
    assert("--"@ != w && "--"@ != k);
    assert(w != k);
    assert forall|i: int| 0 <= i < views(files).len() implies #[trigger] views(files)[i] != w && views(files)[i] != k by {
        assert(views(files)[i] == files[i]@);
    }
    assert forall|i: int| 0 <= i < views(compiler_args).len() implies #[trigger] views(compiler_args)[i] != w
        && views(compiler_args)[i] != k by {
        assert(views(compiler_args)[i] == compiler_args[i]@);
    }
    if a.contains(w) {
        let i = choose|i: int| 0 <= i < a.len() && a[i] == w;
        if !deny_warnings {
            if i >= 2 + opts.len() + views(files).len() + 1 {
                assert(a[i] == views(compiler_args)[i - (2 + opts.len() + views(files).len() + 1)]);
            } else if i >= 2 + opts.len() && i < 2 + opts.len() + views(files).len() {
                assert(a[i] == views(files)[i - (2 + opts.len())]);
            }
        }
    }
    if deny_warnings {
        assert(a[2 + opts.len() - 1] == w);
    }
    if a.contains(k) {
        let i = choose|i: int| 0 <= i < a.len() && a[i] == k;
        if !use_default_checks {
            if i >= 2 + opts.len() + views(files).len() + 1 {
                assert(a[i] == views(compiler_args)[i - (2 + opts.len() + views(files).len() + 1)]);
            } else if i >= 2 + opts.len() && i < 2 + opts.len() + views(files).len() {
                assert(a[i] == views(files)[i - (2 + opts.len())]);
            }
        }
    }
    if use_default_checks {
        assert(a[2] == k);
    }
}

} // verus!
