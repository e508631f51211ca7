use cbld::fmt::format_invocation;
use cbld::lint::{lint_invocation, regex_escape, DEFAULT_CHECKS};

#[test]
fn check_invocation_uses_dry_run_and_werror() {
    let files = ["src/main.cpp".to_string()];
    let args = format_invocation(&files, true);
    assert!(args.contains(&"--dry-run".to_string()));
    assert!(args.contains(&"--Werror".to_string()));
    assert!(!args.iter().any(|a| a == "-i"));
    assert_eq!(args.last().map(String::as_str), Some("src/main.cpp"));
}

#[test]
fn write_invocation_uses_in_place() {
    let files = ["include/foo.h".to_string(), "src/a.c".to_string()];
    let args = format_invocation(&files, false);
    assert!(args.contains(&"-i".to_string()));
    assert!(!args.iter().any(|a| a == "--dry-run"));
    assert_eq!(args[args.len() - 2], "include/foo.h");
    assert_eq!(args.last().map(String::as_str), Some("src/a.c"));
}

#[test]
fn format_invocation_full_command_line() {
    let files = ["a.c".to_string()];
    assert_eq!(
        format_invocation(&files, false),
        vec!["-style=file", "-fallback-style=LLVM", "-i", "a.c"]
    );
    assert_eq!(
        format_invocation(&files, true),
        vec!["-style=file", "-fallback-style=LLVM", "--dry-run", "--Werror", "a.c"]
    );
}

#[test]
fn deny_warnings_passes_warnings_as_errors() {
    let files = ["src/main.cpp".to_string()];
    let args = lint_invocation(&files, true, true, "/proj", &["-std=c++20".into()]);
    assert!(args.iter().any(|a| a == "-warnings-as-errors=*"));
    assert!(args.iter().any(|a| a.starts_with("-checks=")));
    let sep = args.iter().position(|a| a == "--").unwrap();
    assert_eq!(args[sep - 1], "src/main.cpp");
    assert_eq!(args[sep + 1], "-std=c++20");
}

#[test]
fn existing_clang_tidy_config_skips_default_checks() {
    let files = ["src/a.c".to_string()];
    let args = lint_invocation(&files, false, false, "/proj", &[]);
    assert!(!args.iter().any(|a| a.starts_with("-checks=")));
    assert!(!args.iter().any(|a| a == "-warnings-as-errors=*"));
}

#[test]
fn lint_invocation_full_command_line() {
    let files = ["x.cpp".to_string(), "y.cpp".to_string()];
    let args = lint_invocation(&files, true, true, "/p", &["-I/p/include".to_string()]);
    assert_eq!(
        args,
        vec![
            "-quiet".to_string(),
            "-header-filter=/p".to_string(),
            format!("-checks={DEFAULT_CHECKS}"),
            "-warnings-as-errors=*".to_string(),
            "x.cpp".to_string(),
            "y.cpp".to_string(),
            "--".to_string(),
            "-I/p/include".to_string(),
        ]
    );
    assert_eq!(DEFAULT_CHECKS, "clang-diagnostic-*,bugprone-*,performance-*");
}

#[test]
fn regex_escape_dots_in_paths() {
    assert_eq!(regex_escape("/home/a.b/c"), "/home/a\\.b/c");
}

#[test]
fn regex_escape_covers_every_metacharacter() {
    assert_eq!(regex_escape("a+b*c?d^e$f(g)h[i]j{k}l|m\\n"), "a\\+b\\*c\\?d\\^e\\$f\\(g\\)h\\[i\\]j\\{k\\}l\\|m\\\\n");
    assert_eq!(regex_escape("plain/path"), "plain/path");
}
