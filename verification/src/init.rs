//! `cbld init`: what a new package starts with, and when a template may be
//! unpacked into a directory.
use vstd::prelude::*;

use crate::error::{CbldError, Result};
use crate::language::{language_of, Language};
use crate::text::{chars_eq, chars_of, push_str, push_trimmed, trim_bounds, trim_ws};

verus! {

/// Entry file of a new C++ executable.
pub const CPP_MAIN: &'static str = "#include <iostream>\n\nint main() {\n    std::cout << \"Hello from cbld!\" << std::endl;\n    return 0;\n}\n";

/// Entry file of a new C executable.
pub const C_MAIN: &'static str = "#include <stdio.h>\n\nint main(void) {\n    printf(\"Hello from cbld!\\n\");\n    return 0;\n}\n";

/// Entry file of a new C++ library.
pub const CPP_LIB: &'static str = "// Library entry point.\n\nint cbld_add(int a, int b) {\n    return a + b;\n}\n";

/// Entry file of a new C library.
pub const C_LIB: &'static str = "/* Library entry point. */\n\nint cbld_add(int a, int b) {\n    return a + b;\n}\n";

/// Compiler profile of a new C++ package.
pub const CPP_PROFILE: &'static str = "[profile.cpp]\nstandard = \"c++20\"\nrtti = false\nexceptions = true\nwarnings = [\"all\", \"extra\"]\noptimization = \"0\"\n";

/// Compiler profile of a new C package.
pub const C_PROFILE: &'static str = "[profile.c]\nstandard = \"c17\"\nwarnings = [\"all\", \"extra\"]\noptimization = \"0\"\n";

/// The files a new package is created with.
pub struct Scaffold {
    /// File name of the entry source, under `src/`.
    pub entry_file: String,
    /// Text of the entry source.
    pub entry_body: String,
    /// Text of `cbld.toml`.
    pub manifest: String,
    /// Text of `.gitignore`, which keeps `target/` out of version control.
    pub gitignore: String,
}

/// The `.gitignore` of a new package: the build directory alone.
pub const GITIGNORE: &'static str = "/target\n";

/// Entry file name: `main` for an executable, `lib` for a library, with
/// the extension of the language.
pub open spec fn entry_file_name(is_lib: bool, c: bool) -> Seq<char> {
    if is_lib {
        if c { "lib.c"@ } else { "lib.cpp"@ }
    } else {
        if c { "main.c"@ } else { "main.cpp"@ }
    }
}

/// Entry file text.
pub open spec fn entry_file_body(is_lib: bool, c: bool) -> Seq<char> {
    if is_lib {
        if c { C_LIB@ } else { CPP_LIB@ }
    } else {
        if c { C_MAIN@ } else { CPP_MAIN@ }
    }
}

/// The extension of `stem.ext`, for a stem and an extension without `.`
/// or `/`.
proof fn lemma_extension_of_file(stem: Seq<char>, ext: Seq<char>)
    requires
        stem.len() > 0,
        ext.len() > 0,
        !stem.contains('/'),
        !stem.contains('.'),
        !ext.contains('/'),
        !ext.contains('.'),
    ensures
        crate::path::extension_spec(stem + seq!['.'] + ext) == Some(ext),
{
    let n = stem + seq!['.'] + ext;
    let d = stem.len() as int;
    assert forall|j: int| 0 <= j < n.len() implies n[j] != '/' by {
        if j < d {
            assert(n[j] == stem[j]);
        } else if j > d {
            assert(n[j] == ext[j - d - 1]);
        }
    }
    assert(n.last() == ext.last());
    assert(crate::text::trim_end_char(n, '/') == n);
    crate::path::lemma_last_index_of(n, '/');
    assert(crate::path::last_index_of(n, '/') is None);
    assert(crate::path::file_name_spec(n) == Some(n)) by {
        assert(n.len() >= 3);
    }
    crate::path::lemma_last_index_of(n, '.');
    assert(n[d] == '.');
    match crate::path::last_index_of(n, '.') {
        Some(k) => {
            if k < d {
                assert(n.subrange(k + 1, n.len() as int)[d - k - 1] == '.');
            } else if k > d {
                assert(n[k] == ext[k - d - 1]);
            }
            assert(k == d);
            assert(n.subrange(d + 1, n.len() as int) =~= ext);
        },
        None => {
            assert(n.contains('.'));
        },
    }
}

/// The entry file names, as stem, `.` and extension.
proof fn lemma_entry_names()
    ensures
        "lib.c"@ == seq!['l', 'i', 'b'] + seq!['.'] + seq!['c'],
        "lib.cpp"@ == seq!['l', 'i', 'b'] + seq!['.'] + seq!['c', 'p', 'p'],
        "main.c"@ == seq!['m', 'a', 'i', 'n'] + seq!['.'] + seq!['c'],
        "main.cpp"@ == seq!['m', 'a', 'i', 'n'] + seq!['.'] + seq!['c', 'p', 'p'],
{
    reveal_strlit("lib.c");
    reveal_strlit("lib.cpp");
    reveal_strlit("main.c");
    reveal_strlit("main.cpp");
    assert("lib.c"@ =~= seq!['l', 'i', 'b'] + seq!['.'] + seq!['c']);
    assert("lib.cpp"@ =~= seq!['l', 'i', 'b'] + seq!['.'] + seq!['c', 'p', 'p']);
    assert("main.c"@ =~= seq!['m', 'a', 'i', 'n'] + seq!['.'] + seq!['c']);
    assert("main.cpp"@ =~= seq!['m', 'a', 'i', 'n'] + seq!['.'] + seq!['c', 'p', 'p']);
}

/// Where the executable entries call `main`, and a place where each
/// library entry differs from the executable entry of its language.
proof fn lemma_entry_bodies()
    ensures
        CPP_MAIN@.len() >= 30,
        C_MAIN@.len() >= 29,
        CPP_MAIN@.subrange(25, 30) == seq!['m', 'a', 'i', 'n', '('],
        C_MAIN@.subrange(24, 29) == seq!['m', 'a', 'i', 'n', '('],
        CPP_LIB@[0] != CPP_MAIN@[0],
        C_LIB@[0] != C_MAIN@[0],
{
    reveal_strlit("#include <iostream>\n\nint main() {\n    std::cout << \"Hello from cbld!\" << std::endl;\n    return 0;\n}\n");
    reveal_strlit("#include <stdio.h>\n\nint main(void) {\n    printf(\"Hello from cbld!\\n\");\n    return 0;\n}\n");
    reveal_strlit("// Library entry point.\n\nint cbld_add(int a, int b) {\n    return a + b;\n}\n");
    reveal_strlit("/* Library entry point. */\n\nint cbld_add(int a, int b) {\n    return a + b;\n}\n");
    assert(CPP_MAIN@.subrange(25, 30) =~= seq!['m', 'a', 'i', 'n', '(']);
    assert(C_MAIN@.subrange(24, 29) =~= seq!['m', 'a', 'i', 'n', '(']);
}

/// Law: a new library (`--lib` without `--bin`) starts from `lib.<ext>`
/// and a new executable from `main.<ext>`; the file is compiled in the
/// package's language (C with `--c`, C++ otherwise); an executable's entry
/// source defines `main`, and a library's entry source is not the
/// executable's.
pub proof fn lemma_entry_file(lib: bool, bin: bool, c: bool)
    ensures
        language_of(entry_file_name(lib && !bin, c)) == Some(if c { Language::C } else { Language::Cpp }),
        lib && !bin ==> entry_file_name(lib && !bin, c).take(4) == seq!['l', 'i', 'b', '.'],
        !(lib && !bin) ==> entry_file_name(lib && !bin, c).take(5) == seq!['m', 'a', 'i', 'n', '.'],
        !(lib && !bin) ==> crate::text::has_infix(entry_file_body(lib && !bin, c), seq!['m', 'a', 'i', 'n', '(']),
        lib && !bin ==> entry_file_body(lib && !bin, c) != entry_file_body(false, c),
{
    lemma_entry_names();
    lemma_entry_bodies();
    lemma_extension_of_file(seq!['l', 'i', 'b'], seq!['c']);
    lemma_extension_of_file(seq!['l', 'i', 'b'], seq!['c', 'p', 'p']);
    lemma_extension_of_file(seq!['m', 'a', 'i', 'n'], seq!['c']);
    lemma_extension_of_file(seq!['m', 'a', 'i', 'n'], seq!['c', 'p', 'p']);
    assert((seq!['l', 'i', 'b'] + seq!['.'] + seq!['c']).take(4) =~= seq!['l', 'i', 'b', '.']);
    assert((seq!['l', 'i', 'b'] + seq!['.'] + seq!['c', 'p', 'p']).take(4) =~= seq!['l', 'i', 'b', '.']);
    assert((seq!['m', 'a', 'i', 'n'] + seq!['.'] + seq!['c']).take(5) =~= seq!['m', 'a', 'i', 'n', '.']);
    assert((seq!['m', 'a', 'i', 'n'] + seq!['.'] + seq!['c', 'p', 'p']).take(5) =~= seq!['m', 'a', 'i', 'n', '.']);
    if !(lib && !bin) {
        let body = entry_file_body(false, c);
        let m = seq!['m', 'a', 'i', 'n', '('];
        if c {
            assert(body.subrange(24int, 24int + m.len()) == m);
        } else {
            assert(body.subrange(25int, 25int + m.len()) == m);
        }
        assert(crate::text::has_infix(body, m));
    }
}

/// The manifest of a new package: name, version `0.1.0`, an empty default
/// feature set, the language's profile and no dependencies.
pub open spec fn scaffold_manifest(name: Seq<char>, c: bool) -> Seq<char> {
    "[package]\nname = \""@ + name + "\"\nversion = \"0.1.0\"\n\n[features]\ndefault = []\n\n"@ + (if c {
        C_PROFILE@
    } else {
        CPP_PROFILE@
    }) + "\n[dependencies]\n"@
}

/// The files of a new package named `name`; `--lib` makes a library
/// unless `--bin` is also given, `--c` a C package.
pub fn scaffold(name: &str, lib: bool, bin: bool, c: bool) -> (s: Scaffold)
    ensures
        s.entry_file@ == entry_file_name(lib && !bin, c),
        s.entry_body@ == entry_file_body(lib && !bin, c),
        s.manifest@ == scaffold_manifest(name@, c),
        s.gitignore@ == GITIGNORE@,
{
    let is_lib = lib && !bin;
    let (file, body) = if is_lib {
        if c {
            ("lib.c", C_LIB)
        } else {
            ("lib.cpp", CPP_LIB)
        }
    } else {
        if c {
            ("main.c", C_MAIN)
        } else {
            ("main.cpp", CPP_MAIN)
        }
    };
    let mut manifest = String::new();
    push_str(&mut manifest, "[package]\nname = \"");
    push_str(&mut manifest, name);
    push_str(&mut manifest, "\"\nversion = \"0.1.0\"\n\n[features]\ndefault = []\n\n");
    push_str(&mut manifest, if c { C_PROFILE } else { CPP_PROFILE });
    push_str(&mut manifest, "\n[dependencies]\n");
    Scaffold { entry_file: file.to_owned(), entry_body: body.to_owned(), manifest, gitignore: GITIGNORE.to_owned() }
}

/// The name of a new package: the one given, else the directory's name,
/// else `my_project`.
pub fn package_name_for(explicit: Option<&str>, dir_name: Option<&str>) -> (r: String)
    ensures
        r@ == match explicit {
            Some(n) => n@,
            None => match dir_name {
                Some(d) => d@,
                None => "my_project"@,
            },
        },
{
    match explicit {
        Some(n) => n.to_owned(),
        None => match dir_name {
            Some(d) => d.to_owned(),
            None => "my_project".to_owned(),
        },
    }
}

/// Whether a directory entry keeps a directory from counting as empty
/// (everything but `.git` and `.gitignore` does).
pub open spec fn blocks_template(entry: Seq<char>) -> bool {
    entry != ".git"@ && entry != ".gitignore"@
}

/// Where a template may not go, and what it is once trimmed.
pub open spec fn template_outcome(r: Result<String>, template: Seq<char>, root: Seq<char>, has_manifest: bool, entries: Seq<String>) -> bool {
    if trim_ws(template).len() == 0 {
        r matches Err(CbldError::Config(m)) && m@ == "empty --template value"@
    } else if has_manifest {
        r matches Err(CbldError::LayoutViolation(m)) && m@ == root
            + " already contains cbld.toml; refusing to overwrite with template"@
    } else if exists|i: int| 0 <= i < entries.len() && #[trigger] blocks_template(entries[i]@) {
        r matches Err(CbldError::LayoutViolation(m)) && m@ == root
            + " is not empty; --template requires an empty directory"@
    } else {
        r matches Ok(t) && t@ == trim_ws(template)
    }
}

/// Check that the template `template` may be unpacked into `root`, whose
/// `cbld.toml` exists when `has_manifest` and whose entries are `entries`;
/// gives the trimmed template reference.
pub fn check_template_target(template: &str, root: &str, has_manifest: bool, entries: &[String]) -> (r: Result<String>)
    ensures
        template_outcome(r, template@, root@, has_manifest, entries@),
{
    let v = chars_of(template);
    let (a, b) = trim_bounds(&v);
    if a == b {
        return Err(CbldError::Config("empty --template value".to_owned()));
    }
    if has_manifest {
        let mut m = String::new();
        push_str(&mut m, root);
        push_str(&mut m, " already contains cbld.toml; refusing to overwrite with template");
        return Err(CbldError::LayoutViolation(m));
    }
    assert(trim_ws(template@).len() != 0);
    for i in 0..entries.len()
        invariant
            trim_ws(template@).len() != 0,
            !has_manifest,
            forall|j: int| 0 <= j < i ==> !#[trigger] blocks_template(entries@[j]@),
    {
        let e = chars_of(entries[i].as_str());
        let git = chars_of(".git");
        let ignore = chars_of(".gitignore");
        let is_git = chars_eq(&e, &git);
        let is_ignore = chars_eq(&e, &ignore);
        if !is_git && !is_ignore {
            assert(blocks_template(entries@[i as int]@));
            let mut m = String::new();
            push_str(&mut m, root);
            push_str(&mut m, " is not empty; --template requires an empty directory");
            return Err(CbldError::LayoutViolation(m));
        }
    }
    let mut t = String::new();
    push_trimmed(&mut t, template);
    Ok(t)
}

/// The error for a failed template clone: git's message, or a note naming
/// the URL when git printed nothing.
pub fn clone_failure(url: &str, code: Option<i32>, stderr: &str) -> (e: CbldError)
    ensures
        e matches CbldError::CommandFailed { program, code: c, stderr: s } && program@ == "git"@ && c == code
            && s@ == if trim_ws(stderr@).len() == 0 {
            "git clone "@ + url@ + " failed"@
        } else {
            trim_ws(stderr@)
        },
{
    let mut s = String::new();
    push_trimmed(&mut s, stderr);
    if s.as_str().is_empty() {
        push_str(&mut s, "git clone ");
        push_str(&mut s, url);
        push_str(&mut s, " failed");
    }
    CbldError::CommandFailed { program: "git".to_owned(), code, stderr: s }
}

} // verus!
