use cbld::language::{CompileUnit, Language};
use cbld::modules::{parse_source, prepare, DeclarationKind};

fn unit(root: &str, name: &str, language: Language) -> CompileUnit {
    let stem = name.split('.').next().unwrap();
    CompileUnit {
        source: format!("{root}/{name}"),
        object: format!("{root}/{stem}.o"),
        language,
        args: Vec::new(),
    }
}

#[test]
fn orders_importers_after_interfaces_and_adds_bmi_flags() {
    let root = "/work/modules";
    let mut units = vec![unit(root, "main.cpp", Language::Cpp), unit(root, "math.cppm", Language::Cpp)];
    let texts = vec![
        Some("import math;\nint main() { return 0; }".to_string()),
        Some("export module math;\nexport int value = 1;".to_string()),
    ];
    let graph = prepare(&mut units, &texts).unwrap();
    assert_eq!(graph.waves, vec![vec![1], vec![0]]);
    assert!(units[1].args.iter().any(|arg| arg.starts_with("-fmodule-output=")));
    assert!(units[0].args.iter().any(|arg| arg.starts_with("-fmodule-file=math=")));
}

#[test]
fn ignores_module_words_in_comments_and_strings() {
    let info = parse_source(
        "// export module fake;\n/* export module also_fake; */\nconst char *s = \"import fake;\";\nexport module real;",
    );
    assert_eq!(info.declaration, Some((DeclarationKind::Interface, "real".into())));
    assert!(info.imports.is_empty());
}

#[test]
fn ignores_module_words_in_raw_strings() {
    let info = parse_source(
        r##"const char *s = R"tag(export module fake; // still text)tag";
                    export module real;"##,
    );
    assert_eq!(info.declaration, Some((DeclarationKind::Interface, "real".into())));
}

#[test]
fn rejects_module_cycles() {
    let root = "/work/cycle";
    let mut units = vec![unit(root, "a.cppm", Language::Cpp), unit(root, "b.cppm", Language::Cpp)];
    let texts = vec![
        Some("export module a; import b;".to_string()),
        Some("export module b; import a;".to_string()),
    ];
    assert!(prepare(&mut units, &texts).is_err());
}

#[test]
fn waves_put_every_unit_once_and_dependencies_first() {
    let root = "/work/chain";
    let mut units = vec![
        unit(root, "app.cpp", Language::Cpp),
        unit(root, "util.c", Language::C),
        unit(root, "b.cppm", Language::Cpp),
        unit(root, "a.cppm", Language::Cpp),
    ];
    let texts = vec![
        Some("import b;\nint main() {}".to_string()),
        None,
        Some("export module b;\nimport a;".to_string()),
        Some("export module a;".to_string()),
    ];
    let graph = prepare(&mut units, &texts).unwrap();
    assert!(graph.has_modules);
    assert_eq!(graph.waves, vec![vec![1, 3], vec![2], vec![0]]);
}

#[test]
fn parse_source_reports_implementation_units_and_imports() {
    let info = parse_source("module shapes;\nimport geometry;\nimport :part;\nimport <vector>;");
    assert_eq!(info.declaration, Some((DeclarationKind::Implementation, "shapes".into())));
    assert!(info.imports.iter().any(|i| i == "geometry"));
}
