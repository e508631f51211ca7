use cbld::error::{CbldError, CompileDiagnostic};
use cbld::json::Json;
use cbld::report::{build_failure_payload, build_success_payload, BuildOutcome};

#[test]
fn build_success_payload_renders_expected_fields() {
    let outcome = BuildOutcome {
        artifact: "/tmp/target/debug/app".to_string(),
        cache_hits: 2,
    };
    let rendered = build_success_payload(&outcome, 1234).render();
    assert!(rendered.contains("\"status\":\"success\""));
    assert!(rendered.contains("\"duration_ms\":1234"));
    assert!(rendered.contains("\"cache_hits\":2"));
    assert!(rendered.contains("\"artifact\":\"/tmp/target/debug/app\""));
    assert!(rendered.contains("\"errors\":[]"));
}

#[test]
fn build_failure_payload_surfaces_structured_compile_diagnostics() {
    let err = CbldError::Compilation {
        failures: 1,
        diagnostics: vec![CompileDiagnostic {
            file: "src/main.c".to_string(),
            line: 4,
            column: 2,
            severity: "error".to_string(),
            message: "undeclared identifier 'foo'".to_string(),
        }],
    };
    let rendered = build_failure_payload(&err, 42).render();
    assert!(rendered.contains("\"status\":\"failure\""));
    assert!(rendered.contains("\"duration_ms\":42"));
    assert!(rendered.contains("\"line\":4"));
    assert!(rendered.contains("undeclared identifier"));
}

#[test]
fn build_failure_payload_falls_back_to_display_text_for_non_compilation_errors() {
    let err = CbldError::Config("bad toolchain spec".to_string());
    let rendered = build_failure_payload(&err, 7).render();
    assert!(rendered.contains("\"status\":\"failure\""));
    assert!(rendered.contains("bad toolchain spec"));
}

#[test]
fn success_payload_renders_exactly() {
    let outcome = BuildOutcome {
        artifact: "/t/app".to_string(),
        cache_hits: 0,
    };
    assert_eq!(
        build_success_payload(&outcome, -5).render(),
        "{\"status\":\"success\",\"duration_ms\":-5,\"cache_hits\":0,\"artifact\":\"/t/app\",\"errors\":[]}"
    );
}

#[test]
fn failure_payload_renders_exactly() {
    let err = CbldError::Config("bad".to_string());
    assert_eq!(
        build_failure_payload(&err, 3).render(),
        "{\"status\":\"failure\",\"duration_ms\":3,\"cache_hits\":0,\"errors\":[{\"file\":null,\"line\":0,\"column\":0,\"severity\":\"error\",\"message\":\"invalid configuration: bad\"}]}"
    );
}

#[test]
fn failure_payload_lists_every_diagnostic_in_order() {
    let diag = |file: &str, line: usize| CompileDiagnostic {
        file: file.to_string(),
        line,
        column: 1,
        severity: "warning".to_string(),
        message: "m".to_string(),
    };
    let err = CbldError::Compilation {
        failures: 2,
        diagnostics: vec![diag("a.c", 1), diag("b.c", 2)],
    };
    assert_eq!(
        build_failure_payload(&err, 0).render(),
        "{\"status\":\"failure\",\"duration_ms\":0,\"cache_hits\":0,\"errors\":[{\"file\":\"a.c\",\"line\":1,\"column\":1,\"severity\":\"warning\",\"message\":\"m\"},{\"file\":\"b.c\",\"line\":2,\"column\":1,\"severity\":\"warning\",\"message\":\"m\"}]}"
    );
}

#[test]
fn json_strings_are_escaped() {
    let j = Json::str("a\"b\\c\nd\te\u{1}f");
    assert_eq!(j.render(), "\"a\\\"b\\\\c\\nd\\te\\u0001f\"");
    assert_eq!(Json::Str("\u{1f}\u{8}\u{c}\r".to_string()).render(), "\"\\u001f\\b\\f\\r\"");
}

#[test]
fn json_values_render_compactly() {
    let v = Json::Object(vec![
        ("a".to_string(), Json::Array(vec![Json::Null, Json::Bool(true), Json::Bool(false), Json::Number(-12)])),
        ("b".to_string(), Json::Object(Vec::new())),
        ("c".to_string(), Json::Array(Vec::new())),
    ]);
    assert_eq!(v.render(), "{\"a\":[null,true,false,-12],\"b\":{},\"c\":[]}");
}
