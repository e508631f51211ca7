//! Source languages and the units that the compiler driver builds.
use vstd::prelude::*;

use crate::path::{extension, extension_spec};
use crate::text::{chars_eq, chars_of};

verus! {

/// The language a translation unit is compiled as.
#[derive(Debug, Clone, Copy, PartialEq, Eq, Structural)]
pub enum Language {
    C,
    Cpp,
}

/// Extensions of C++ module interface sources.
pub open spec fn is_module_extension(ext: Seq<char>) -> bool {
    ||| ext == seq!['c', 'p', 'p', 'm']
    ||| ext == seq!['c', 'c', 'm']
    ||| ext == seq!['c', 'x', 'x', 'm']
    ||| ext == seq!['c', '+', '+', 'm']
    ||| ext == seq!['i', 'x', 'x']
    ||| ext == seq!['m', 'x', 'x']
}

/// Extensions of C++ sources, module interfaces included.
pub open spec fn is_cpp_extension(ext: Seq<char>) -> bool {
    ||| ext == seq!['c', 'p', 'p']
    ||| ext == seq!['c', 'c']
    ||| ext == seq!['c', 'x', 'x']
    ||| ext == seq!['c', '+', '+']
    ||| is_module_extension(ext)
}

/// The language a file is compiled as, judged by its extension.
pub open spec fn language_of(path: Seq<char>) -> Option<Language> {
    match extension_spec(path) {
        Some(ext) => if ext == seq!['c'] {
            Some(Language::C)
        } else if is_cpp_extension(ext) {
            Some(Language::Cpp)
        } else {
            None
        },
        None => None,
    }
}

/// Whether a path names a C++ module interface source.
pub open spec fn is_module_path(path: Seq<char>) -> bool {
    match extension_spec(path) {
        Some(ext) => is_module_extension(ext),
        None => false,
    }
}

fn ext_module(e: &[char]) -> (r: bool)
    ensures
        r == is_module_extension(e@),
{
    let r = chars_eq(e, &['c', 'p', 'p', 'm']) || chars_eq(e, &['c', 'c', 'm']) || chars_eq(e, &['c', 'x', 'x', 'm'])
        || chars_eq(e, &['c', '+', '+', 'm']) || chars_eq(e, &['i', 'x', 'x']) || chars_eq(e, &['m', 'x', 'x']);
    assert(['c', 'p', 'p', 'm']@ =~= seq!['c', 'p', 'p', 'm']);
    assert(['c', 'c', 'm']@ =~= seq!['c', 'c', 'm']);
    assert(['c', 'x', 'x', 'm']@ =~= seq!['c', 'x', 'x', 'm']);
    assert(['c', '+', '+', 'm']@ =~= seq!['c', '+', '+', 'm']);
    assert(['i', 'x', 'x']@ =~= seq!['i', 'x', 'x']);
    assert(['m', 'x', 'x']@ =~= seq!['m', 'x', 'x']);
    r
}

fn ext_cpp(e: &[char]) -> (r: bool)
    ensures
        r == is_cpp_extension(e@),
{
    let r = chars_eq(e, &['c', 'p', 'p']) || chars_eq(e, &['c', 'c']) || chars_eq(e, &['c', 'x', 'x'])
        || chars_eq(e, &['c', '+', '+']) || ext_module(e);
    assert(['c', 'p', 'p']@ =~= seq!['c', 'p', 'p']);
    assert(['c', 'c']@ =~= seq!['c', 'c']);
    assert(['c', 'x', 'x']@ =~= seq!['c', 'x', 'x']);
    assert(['c', '+', '+']@ =~= seq!['c', '+', '+']);
    r
}

impl Language {
    /// The language of a source file, from its extension; `None` for files
    /// that are not C or C++ sources.
    pub fn from_extension(path: &str) -> (r: Option<Language>)
        ensures
            r == language_of(path@),
    {
        match extension(path) {
            Some(ext) => {
                let e = chars_of(ext.as_str());
                if chars_eq(&e, &['c']) {
                    assert(['c']@ =~= seq!['c']);
                    Some(Language::C)
                } else if ext_cpp(&e) {
                    assert(['c']@ =~= seq!['c']);
                    Some(Language::Cpp)
                } else {
                    assert(['c']@ =~= seq!['c']);
                    None
                }
            },
            None => None,
        }
    }

    /// Whether `path` is a C++ module interface source.
    pub fn is_module_source(path: &str) -> (r: bool)
        ensures
            r == is_module_path(path@),
    {
        match extension(path) {
            Some(ext) => {
                let e = chars_of(ext.as_str());
                ext_module(&e)
            },
            None => false,
        }
    }
}

/// One translation unit: its source, its object file, its language and the
/// compiler arguments it is built with.
#[derive(Debug)]
pub struct CompileUnit {
    pub source: String,
    pub object: String,
    pub language: Language,
    pub args: Vec<String>,
}

} // verus!
