//! The package manifest (`cbld.toml`) as plain data.
//!
//! Reading and writing the TOML text happens at the edge of the program;
//! this module holds the values the rest of the library works on.
use vstd::prelude::*;

verus! {

/// The `[package]` table.
#[derive(Debug, Clone)]
pub struct Package {
    pub name: String,
    pub version: String,
    pub description: Option<String>,
    pub authors: Vec<String>,
    /// Optional pinned compiler, e.g. `clang-18.1`.
    pub toolchain: Option<String>,
    /// Optional cross-compile triple.
    pub target: Option<String>,
    /// Source scan root (default `src`).
    pub source_dir: String,
    /// Extra include paths relative to the package root.
    pub include_dirs: Vec<String>,
    /// Project-wide `-D` defines.
    pub defines: Vec<String>,
    /// System libraries passed as `-l` when linking an executable.
    pub libs: Vec<String>,
    /// `pkg-config` package names.
    pub pkg_config: Vec<String>,
    /// Inject `-w` for all translation units.
    pub ignore_warnings: bool,
    /// `bin`, `lib`, or `header`.
    pub kind: Option<String>,
    /// Glob patterns narrowing the source scan.
    pub include_globs: Vec<String>,
    pub exclude: Vec<String>,
}

/// One `[dependencies]` entry.
#[derive(Debug, Clone)]
pub struct Dependency {
    pub version: String,
    pub features: Vec<String>,
    pub tag: Option<String>,
}

/// The `[workspace]` table.
#[derive(Debug, Clone)]
pub struct Workspace {
    pub members: Vec<String>,
}

/// A parsed `cbld.toml`. Tables are held as lists of `(key, value)` pairs
/// in key order.
#[derive(Debug, Clone)]
pub struct Manifest {
    pub package: Option<Package>,
    pub workspace: Option<Workspace>,
    pub dependencies: Vec<(String, Dependency)>,
    pub features: Vec<(String, Vec<String>)>,
}

impl Default for Manifest {
    fn default() -> (r: Manifest)
        ensures
            r.package is None,
            r.workspace is None,
            r.dependencies@.len() == 0,
            r.features@.len() == 0,
    {
        Manifest { package: None, workspace: None, dependencies: Vec::new(), features: Vec::new() }
    }
}

impl Manifest {
    /// Whether the manifest describes a workspace rather than a package.
    pub fn is_workspace(&self) -> (r: bool)
        ensures
            r == (self.workspace is Some),
    {
        self.workspace.is_some()
    }
}

} // verus!
