//! Gathering what a package's dependencies contribute to its build.
//!
//! Each resolved dependency adds its include directories; a dependency
//! that is not header-only is compiled into a static archive, which the
//! consumer links together with the dependency's `pkg-config` libraries.
//! Compiling is outside work: the caller performs it for one dependency at
//! a time and hands the result to [`dep_step`], which decides what the
//! dependency contributes.
use vstd::prelude::*;

use crate::manifest::Package;
use crate::path::join_spec;
use crate::project::dependency_include_dirs;
use crate::text::clone_strings;

verus! {

/// What the dependencies of a package contribute to its build.
pub struct DepArtifacts {
    /// Include directories, in dependency order.
    pub includes: Vec<String>,
    /// Static archives to link.
    pub archives: Vec<String>,
    /// Linker flags from the dependencies' `pkg-config` packages.
    pub pkg_libs: Vec<String>,
    /// How many dependency builds were served from the cache.
    pub cache_hits: usize,
}

/// The outcome of compiling one dependency that is not header-only.
pub struct BuiltDependency {
    /// Path of the static archive.
    pub archive: String,
    /// Whether the archive came from the cache.
    pub cache_hit: bool,
    /// The dependency's `pkg-config` linker flags.
    pub pkg_libs: Vec<String>,
}

/// The text of each string.
pub open spec fn texts(v: Seq<String>) -> Seq<Seq<char>> {
    v.map_values(|s: String| s@)
}

/// The include directories a dependency checked out at `root` offers its
/// consumers: its `src/` and `include/`, then its own `include_dirs`.
pub open spec fn dependency_includes(root: Seq<char>, pkg: Package) -> Seq<Seq<char>> {
    seq![join_spec(root, "src"@), join_spec(root, "include"@)] + pkg.include_dirs@.map_values(
        |d: String| join_spec(root, d@),
    )
}

impl DepArtifacts {
    /// Nothing gathered yet.
    pub fn new() -> (r: DepArtifacts)
        ensures
            r.includes@.len() == 0,
            r.archives@.len() == 0,
            r.pkg_libs@.len() == 0,
            r.cache_hits == 0,
    {
        DepArtifacts { includes: Vec::new(), archives: Vec::new(), pkg_libs: Vec::new(), cache_hits: 0 }
    }
}

/// Add one dependency, checked out at `cache_path` with package table
/// `package`, to what has been gathered: its include directories always;
/// and, when it was compiled (`built` is `Some`; a header-only dependency
/// is not), its archive, its `pkg-config` libraries and whether the build
/// was a cache hit.
pub fn dep_step(acc: DepArtifacts, cache_path: &str, package: &Package, built: Option<&BuiltDependency>) -> (r: DepArtifacts)
    requires
        acc.cache_hits < usize::MAX,
    ensures
        texts(r.includes@) == texts(acc.includes@) + dependency_includes(cache_path@, *package),
        match built {
            None => {
                &&& r.archives@ == acc.archives@
                &&& r.pkg_libs@ == acc.pkg_libs@
                &&& r.cache_hits == acc.cache_hits
            },
            Some(b) => {
                &&& r.archives@ == acc.archives@.push(b.archive)
                &&& r.pkg_libs@ == acc.pkg_libs@ + b.pkg_libs@
                &&& r.cache_hits == acc.cache_hits + if b.cache_hit { 1int } else { 0int }
            },
        },
{
    let mut acc = acc;
    let ghost before = acc.includes@;
    let ghost archives0 = acc.archives@;
    let ghost libs0 = acc.pkg_libs@;
    let ghost hits0 = acc.cache_hits;
    let dirs = dependency_include_dirs(cache_path, package);
    assert(texts(dirs@) =~= dependency_includes(cache_path@, *package)) by {
        assert forall|i: int| 0 <= i < dirs@.len() implies #[trigger] texts(dirs@)[i] == dependency_includes(
            cache_path@,
            *package,
        )[i] by {
            if i >= 2 {
                assert(dirs@[(i - 2) + 2]@ == join_spec(cache_path@, package.include_dirs@[i - 2]@));
            }
        }
    }
    for i in 0..dirs.len()
        invariant
            texts(acc.includes@) == texts(before) + texts(dirs@.take(i as int)),
            acc.archives@ == archives0,
            acc.pkg_libs@ == libs0,
            acc.cache_hits == hits0,
            hits0 < usize::MAX,
    {
        let ghost prev = acc.includes@;
        acc.includes.push(dirs[i].clone());
        assert(texts(acc.includes@) =~= texts(prev).push(dirs@[i as int]@));
        assert(texts(dirs@.take(i + 1)) =~= texts(dirs@.take(i as int)).push(dirs@[i as int]@));
    }
    assert(dirs@.take(dirs@.len() as int) =~= dirs@);
    match built {
        None => acc,
        Some(b) => {
            let mut pkg_libs = clone_strings(&b.pkg_libs);
            acc.archives.push(b.archive.clone());
            acc.pkg_libs.append(&mut pkg_libs);
            if b.cache_hit {
                acc.cache_hits = acc.cache_hits + 1;
            }
            acc
        },
    }
}

/// The gathered artifacts in link order. Dependencies come first in the
/// resolved order, and a single-pass linker needs the archive that uses a
/// symbol before the one that defines it, so the archives are reversed.
pub fn link_order(acc: DepArtifacts) -> (r: DepArtifacts)
    ensures
        r.includes@ == acc.includes@,
        r.archives@ == acc.archives@.reverse(),
        r.pkg_libs@ == acc.pkg_libs@,
        r.cache_hits == acc.cache_hits,
{
    let DepArtifacts { includes, archives, pkg_libs, cache_hits } = acc;
    let mut reversed: Vec<String> = Vec::new();
    let n = archives.len();
    for i in 0..n
        invariant
            n == archives@.len(),
            reversed@ == archives@.reverse().take(i as int),
    {
        reversed.push(archives[n - 1 - i].clone());
        assert(reversed@ =~= archives@.reverse().take(i + 1));
    }
    assert(archives@.reverse().take(n as int) =~= archives@.reverse());
    DepArtifacts { includes, archives: reversed, pkg_libs, cache_hits }
}

/// One resolved dependency as [`gather_dependencies`] takes it: where it is
/// checked out, its package table, and its build (`None` when it is
/// header-only).
pub type DependencyStep = (String, Package, Option<BuiltDependency>);

/// The include directories of all the dependencies, in order.
pub open spec fn step_includes(steps: Seq<DependencyStep>) -> Seq<Seq<char>>
    decreases steps.len(),
{
    if steps.len() == 0 {
        seq![]
    } else {
        step_includes(steps.drop_last()) + dependency_includes(steps.last().0@, steps.last().1)
    }
}

/// The archives of the compiled dependencies, in dependency order.
pub open spec fn built_archives(steps: Seq<DependencyStep>) -> Seq<String>
    decreases steps.len(),
{
    if steps.len() == 0 {
        seq![]
    } else {
        built_archives(steps.drop_last()) + match steps.last().2 {
            Some(b) => seq![b.archive],
            None => seq![],
        }
    }
}

/// The `pkg-config` libraries of the compiled dependencies, in order.
pub open spec fn built_libs(steps: Seq<DependencyStep>) -> Seq<String>
    decreases steps.len(),
{
    if steps.len() == 0 {
        seq![]
    } else {
        built_libs(steps.drop_last()) + match steps.last().2 {
            Some(b) => b.pkg_libs@,
            None => seq![],
        }
    }
}

/// How many of the dependency builds were cache hits.
pub open spec fn cache_hit_count(steps: Seq<DependencyStep>) -> nat
    decreases steps.len(),
{
    if steps.len() == 0 {
        0
    } else {
        cache_hit_count(steps.drop_last()) + match steps.last().2 {
            Some(b) => if b.cache_hit { 1nat } else { 0nat },
            None => 0nat,
        }
    }
}

proof fn lemma_cache_hit_count_bound(steps: Seq<DependencyStep>)
    ensures
        cache_hit_count(steps) <= steps.len(),
    decreases steps.len(),
{
    if steps.len() > 0 {
        lemma_cache_hit_count_bound(steps.drop_last());
    }
}

/// What all the resolved dependencies, in resolution order (dependencies
/// first), contribute to a build: every dependency's include directories
/// in order; the archives of the compiled ones in reverse order, so that a
/// single-pass linker sees a user before what it uses; their `pkg-config`
/// libraries in order; and the number of builds served from the cache.
pub fn gather_dependencies(steps: &[DependencyStep]) -> (r: DepArtifacts)
    ensures
        texts(r.includes@) == step_includes(steps@),
        r.archives@ == built_archives(steps@).reverse(),
        r.pkg_libs@ == built_libs(steps@),
        r.cache_hits == cache_hit_count(steps@),
{
    let mut acc = DepArtifacts::new();
    assert(steps@.take(0) =~= seq![]);
    assert(texts(acc.includes@) =~= step_includes(steps@.take(0)));
    for i in 0..steps.len()
        invariant
            texts(acc.includes@) == step_includes(steps@.take(i as int)),
            acc.archives@ == built_archives(steps@.take(i as int)),
            acc.pkg_libs@ == built_libs(steps@.take(i as int)),
            acc.cache_hits == cache_hit_count(steps@.take(i as int)),
            i <= steps@.len() <= usize::MAX,
    {
        assert(steps@.take(i + 1).drop_last() =~= steps@.take(i as int));
        assert(steps@.take(i + 1).last() == steps@[i as int]);
        proof {
            lemma_cache_hit_count_bound(steps@.take(i as int));
        }
        let step = &steps[i];
        acc = dep_step(acc, step.0.as_str(), &step.1, step.2.as_ref());
    }
    assert(steps@.take(steps@.len() as int) =~= steps@);
    link_order(acc)
}

} // verus!
