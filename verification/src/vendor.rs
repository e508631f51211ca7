//! Offline builds from `third_party/`: dependencies resolved from vendored
//! copies and the metadata recorded in `cbld.lock`.
use vstd::prelude::*;

use crate::assoc::keys_ascending;
use crate::error::{CbldError, Result};
use crate::features::{package_name, package_name_spec, FeatureRequests};
use crate::manifest::Dependency;
use crate::path::{join, join_spec, lists};
use crate::text::{chars_eq, chars_of, clone_strings, push_str, string_from, strip_prefix_all, trim_start_matches, views};

verus! {

/// One dependency as `cbld.lock` records it.
#[derive(Debug)]
pub struct LockedDependency {
    pub name: String,
    /// `git+<url>` of the repository.
    pub source: String,
    /// The locked commit.
    pub checksum: String,
    pub version: String,
    /// Names of the packages it depends on.
    pub dependencies: Vec<String>,
}

/// A dependency resolved to a local checkout.
#[derive(Debug)]
pub struct ResolvedDep {
    pub name: String,
    pub shorthand: String,
    pub url: String,
    pub source: String,
    pub version: String,
    pub checksum: String,
    pub cache_path: String,
    pub dependencies: Vec<String>,
    pub features: Vec<String>,
}

/// `r` is the vendored checkout under `root` of the locked dependency `l`.
pub open spec fn is_vendored_dep(r: ResolvedDep, l: LockedDependency, root: Seq<char>) -> bool {
    &&& r.name@ == l.name@
    &&& r.shorthand@ == l.name@
    &&& r.url@ == strip_prefix_all(l.source@, seq!['g', 'i', 't', '+'])
    &&& r.source@ == l.source@
    &&& r.version@ == l.version@
    &&& r.checksum@ == l.checksum@
    &&& r.cache_path@ == join_spec(join_spec(root, "third_party"@), l.name@)
    &&& r.dependencies@ == l.dependencies@
    &&& r.features@.len() == 0
}

/// Index of the first locked dependency at or after `i` whose directory is
/// not among `present`, or the count of locked dependencies.
pub open spec fn first_missing(lock: Seq<LockedDependency>, present: Seq<String>, i: int) -> int
    decreases lock.len() - i,
{
    if i < 0 || i >= lock.len() {
        lock.len() as int
    } else if !lists(present, lock[i].name@) {
        i
    } else {
        first_missing(lock, present, i + 1)
    }
}

/// What resolving from `third_party/` gives: an error for a missing lock
/// or a missing vendored copy, else one checkout per locked dependency.
pub open spec fn vendored_outcome(
    r: Result<Vec<ResolvedDep>>,
    root: Seq<char>,
    lock: Option<Seq<LockedDependency>>,
    present: Seq<String>,
) -> bool {
    match lock {
        None => r matches Err(CbldError::Config(m)) && m@
            == "third_party/ is populated but cbld.lock is missing; run `cbld vendor` again"@,
        Some(l) => {
            let miss = first_missing(l, present, 0);
            if miss < l.len() {
                r matches Err(CbldError::Config(m)) && m@ == "third_party/"@ + l[miss].name@
                    + " is missing; run `cbld vendor` again"@
            } else {
                r matches Ok(v) && v@.len() == l.len() && forall|i: int|
                    0 <= i < l.len() ==> #[trigger] is_vendored_dep(v@[i], l[i], root)
            }
        },
    }
}

proof fn lemma_first_missing_at(lock: Seq<LockedDependency>, present: Seq<String>, k: int, i: int)
    requires
        0 <= k <= i,
        i <= lock.len(),
        forall|j: int| 0 <= j < i ==> lists(present, #[trigger] lock[j].name@),
        i < lock.len() ==> !lists(present, lock[i].name@),
    ensures
        first_missing(lock, present, k) == i,
    decreases i - k,
{
    if k < i {
        lemma_first_missing_at(lock, present, k + 1, i);
    }
}

/// Whether `name` is among `present`.
fn is_present(present: &[String], name: &str) -> (r: bool)
    ensures
        r == lists(present@, name@),
{
    let nv = chars_of(name);
    for i in 0..present.len()
        invariant
            nv@ == name@,
            forall|j: int| 0 <= j < i ==> present@[j]@ != name@,
    {
        if chars_eq(&chars_of(present[i].as_str()), &nv) {
            return true;
        }
    }
    false
}

/// Resolve the dependencies of the package at `root` from its vendored
/// copies: `lock` is its lockfile's dependency list, if it has a lockfile,
/// and `present` names the directories in `third_party/`.
pub fn resolve_vendored(root: &str, lock: Option<&Vec<LockedDependency>>, present: &[String]) -> (r: Result<Vec<ResolvedDep>>)
    ensures
        vendored_outcome(r, root@, match lock {
            Some(l) => Some(l@),
            None => None,
        }, present@),
{
    let entries = match lock {
        Some(l) => l,
        None => {
            return Err(CbldError::Config(
                "third_party/ is populated but cbld.lock is missing; run `cbld vendor` again".to_owned(),
            ));
        },
    };
    let vendor_dir = join(root, "third_party");
    let git_plus = vec!['g', 'i', 't', '+'];
    assert(git_plus@ == seq!['g', 'i', 't', '+']);
    let mut resolved: Vec<ResolvedDep> = Vec::new();
    for i in 0..entries.len()
        invariant
            lock == Some(entries),
            vendor_dir@ == join_spec(root@, "third_party"@),
            git_plus@ == seq!['g', 'i', 't', '+'],
            resolved@.len() == i,
            forall|j: int| 0 <= j < i ==> lists(present@, #[trigger] entries@[j].name@),
            forall|j: int| 0 <= j < i ==> #[trigger] is_vendored_dep(resolved@[j], entries@[j], root@),
    {
        let locked = &entries[i];
        if !is_present(present, locked.name.as_str()) {
            proof {
                lemma_first_missing_at(entries@, present@, 0, i as int);
            }
            let mut m = String::new();
            assert(!lists(present@, entries@[i as int].name@));
            push_str(&mut m, "third_party/");
            push_str(&mut m, locked.name.as_str());
            push_str(&mut m, " is missing; run `cbld vendor` again");
            return Err(CbldError::Config(m));
        }
        let url = string_from(&trim_start_matches(&chars_of(locked.source.as_str()), &git_plus));
        resolved.push(ResolvedDep {
            name: locked.name.clone(),
            shorthand: locked.name.clone(),
            url,
            source: locked.source.clone(),
            version: locked.version.clone(),
            checksum: locked.checksum.clone(),
            cache_path: join(vendor_dir.as_str(), locked.name.as_str()),
            dependencies: clone_strings(&locked.dependencies),
            features: Vec::new(),
        });
    }
    proof {
        lemma_first_missing_at(entries@, present@, 0, entries@.len() as int);
    }
    Ok(resolved)
}

/// `b` is `a` with its features possibly replaced.
pub open spec fn same_but_features(a: ResolvedDep, b: ResolvedDep) -> bool {
    &&& b.name == a.name
    &&& b.shorthand == a.shorthand
    &&& b.url == a.url
    &&& b.source == a.source
    &&& b.version == a.version
    &&& b.checksum == a.checksum
    &&& b.cache_path == a.cache_path
    &&& b.dependencies == a.dependencies
}

/// Whether no dependency before position `i` has the name of the one at `i`.
pub open spec fn first_of_its_name(deps: Seq<ResolvedDep>, i: int) -> bool {
    forall|j: int| 0 <= j < i ==> #[trigger] deps[j].name@ != deps[i].name@
}

/// Hand each dependency the features requested for its package; of
/// several dependencies with one name, the first takes them. The requests
/// handed out leave `requests`.
pub fn apply_requested_features(deps: Vec<ResolvedDep>, requests: &mut FeatureRequests) -> (r: Vec<ResolvedDep>)
    ensures
        r@.len() == deps@.len(),
        forall|i: int| 0 <= i < deps@.len() ==> #[trigger] same_but_features(deps@[i], r@[i]),
        forall|i: int| 0 <= i < deps@.len() ==> views(#[trigger] r@[i].features@) == if first_of_its_name(deps@, i)
            && old(requests)@.contains_key(deps@[i].name@) {
            old(requests)@[deps@[i].name@]
        } else {
            views(deps@[i].features@)
        },
        final(requests)@ == old(requests)@.remove_keys(Set::new(|k: Seq<char>| exists|i: int| 0 <= i < deps@.len() && #[trigger] deps@[i].name@ == k)),
{
    let ghost orig = deps@;
    let ghost start = requests@;
    let mut deps = deps;
    let mut out: Vec<ResolvedDep> = Vec::new();
    let ghost mut done: int = 0;
    while deps.len() > 0
        invariant
            0 <= done <= orig.len(),
            deps@ == orig.skip(done),
            out@.len() == done,
            forall|i: int| 0 <= i < done ==> #[trigger] same_but_features(orig[i], out@[i]),
            forall|i: int| 0 <= i < done ==> views(#[trigger] out@[i].features@) == if first_of_its_name(orig, i)
                && start.contains_key(orig[i].name@) {
                start[orig[i].name@]
            } else {
                views(orig[i].features@)
            },
            requests@ == start.remove_keys(Set::new(|k: Seq<char>| exists|i: int| 0 <= i < done && #[trigger] orig[i].name@ == k)),
        decreases deps@.len(),
    {
        let mut d = deps.remove(0);
        proof {
            assert(d == orig[done]);
        }
        let ghost before = requests@;
        let ghost earlier = Set::new(|k: Seq<char>| exists|i: int| 0 <= i < done && #[trigger] orig[i].name@ == k);
        let taken = requests.remove(d.name.as_str());
        proof {
            if first_of_its_name(orig, done) {
                assert(!earlier.contains(orig[done].name@)) by {
                    if earlier.contains(orig[done].name@) {
                        let i = choose|i: int| 0 <= i < done && #[trigger] orig[i].name@ == orig[done].name@;
                    }
                }
            } else {
                let j = choose|j: int| 0 <= j < done && !(orig[j].name@ != orig[done].name@);
                assert(orig[j].name@ == orig[done].name@);
                assert(earlier.contains(orig[done].name@));
            }
        }
        if let Some(f) = taken {
            d.features = f;
        }
        out.push(d);
        proof {
            let later = Set::new(|k: Seq<char>| exists|i: int| 0 <= i < done + 1 && #[trigger] orig[i].name@ == k);
            assert(later =~= earlier.insert(orig[done].name@)) by {
                assert forall|k: Seq<char>| later.contains(k) implies earlier.insert(orig[done].name@).contains(k) by {
                    let i = choose|i: int| 0 <= i < done + 1 && #[trigger] orig[i].name@ == k;
                    if i < done {
                        assert(earlier.contains(k));
                    }
                }
                assert forall|k: Seq<char>| earlier.insert(orig[done].name@).contains(k) implies later.contains(k) by {
                    if k == orig[done].name@ {
                        assert(orig[done].name@ == k);
                    } else {
                        let i = choose|i: int| 0 <= i < done && #[trigger] orig[i].name@ == k;
                        assert(orig[i].name@ == k);
                    }
                }
            }
            assert(requests@ =~= start.remove_keys(later));
            done = done + 1;
            assert(deps@ =~= orig.skip(done));
        }
    }
    out
}

/// Whether a dependency named `name` is among `resolved`.
pub open spec fn is_locked(resolved: Seq<ResolvedDep>, name: Seq<char>) -> bool {
    exists|x: int| 0 <= x < resolved.len() && #[trigger] resolved[x].name@ == name
}

/// Every direct dependency of the root manifest must have a lockfile
/// entry: the first one whose package is missing is reported.
pub open spec fn first_unlocked(deps: Seq<(String, Dependency)>, resolved: Seq<ResolvedDep>, i: int) -> int
    decreases deps.len() - i,
{
    if i < 0 || i >= deps.len() {
        deps.len() as int
    } else if !is_locked(resolved, package_name_spec(deps[i].0@)) {
        i
    } else {
        first_unlocked(deps, resolved, i + 1)
    }
}

proof fn lemma_first_unlocked_at(deps: Seq<(String, Dependency)>, resolved: Seq<ResolvedDep>, k: int, i: int)
    requires
        0 <= k <= i <= deps.len(),
        forall|j: int| 0 <= j < i ==> #[trigger] is_locked(resolved, package_name_spec(deps[j].0@)),
        i < deps.len() ==> !is_locked(resolved, package_name_spec(deps[i].0@)),
    ensures
        first_unlocked(deps, resolved, k) == i,
    decreases i - k,
{
    if k < i {
        lemma_first_unlocked_at(deps, resolved, k + 1, i);
    }
}

/// Check that each direct dependency (`deps`, the root manifest's
/// `[dependencies]` in key order) is among the vendored ones.
pub fn check_direct_dependencies(deps: &[(String, Dependency)], resolved: &[ResolvedDep]) -> (r: Result<()>)
    requires
        keys_ascending(deps@),
    ensures
        ({
            let bad = first_unlocked(deps@, resolved@, 0);
            if bad < deps@.len() {
                r matches Err(CbldError::Config(m)) && m@ == "vendored dependency '"@ + package_name_spec(deps@[bad].0@)
                    + "' has no entry in cbld.lock"@
            } else {
                r is Ok
            }
        }),
{
    for i in 0..deps.len()
        invariant
            forall|j: int| 0 <= j < i ==> #[trigger] is_locked(resolved@, package_name_spec(deps@[j].0@)),
    {
        let name = package_name(deps[i].0.as_str());
        let nv = chars_of(name.as_str());
        let mut found = false;
        for x in 0..resolved.len()
            invariant
                nv@ == name@,
                !found ==> forall|y: int| 0 <= y < x ==> resolved@[y].name@ != name@,
                found ==> is_locked(resolved@, name@),
        {
            if !found && chars_eq(&chars_of(resolved[x].name.as_str()), &nv) {
                found = true;
            }
        }
        if !found {
            proof {
                lemma_first_unlocked_at(deps@, resolved@, 0, i as int);
            }
            let mut m = String::new();
            push_str(&mut m, "vendored dependency '");
            push_str(&mut m, name.as_str());
            push_str(&mut m, "' has no entry in cbld.lock");
            return Err(CbldError::Config(m));
        }
    }
    proof {
        lemma_first_unlocked_at(deps@, resolved@, 0, deps@.len() as int);
    }
    Ok(())
}

/// The message when `cbld update <only>` names no dependency.
pub open spec fn not_a_dependency_message(only: Seq<char>) -> Seq<char> {
    "'"@ + only
        + "' is not a dependency of this package (use the package name, e.g. the last segment of gh:owner/repo)"@
}

/// The dependency `cbld update <only>` re-resolves: the first resolved
/// dependency whose name is the package name of `only`.
pub fn update_target(resolved: &[ResolvedDep], only: &str) -> (r: Result<usize>)
    ensures
        match r {
            Ok(pos) => pos < resolved@.len() && resolved@[pos as int].name@ == package_name_spec(only@) && forall|j: int|
                0 <= j < pos ==> #[trigger] resolved@[j].name@ != package_name_spec(only@),
            Err(e) => !is_locked(resolved@, package_name_spec(only@)) && (e matches CbldError::Resolution(m) && m@
                == not_a_dependency_message(only@)),
        },
{
    let target = package_name(only);
    let tv = chars_of(target.as_str());
    for i in 0..resolved.len()
        invariant
            tv@ == package_name_spec(only@),
            forall|j: int| 0 <= j < i ==> #[trigger] resolved@[j].name@ != package_name_spec(only@),
    {
        if chars_eq(&chars_of(resolved[i].name.as_str()), &tv) {
            return Ok(i);
        }
    }
    let mut m = String::new();
    push_str(&mut m, "'");
    push_str(&mut m, only);
    push_str(
        &mut m,
        "' is not a dependency of this package (use the package name, e.g. the last segment of gh:owner/repo)",
    );
    Err(CbldError::Resolution(m))
}

/// A request to resolve one dependency afresh: its position among the
/// resolved dependencies, the shorthand to resolve, and the spec to resolve
/// it with.
#[derive(Debug)]
pub struct Reresolution {
    pub position: usize,
    pub shorthand: String,
    pub spec: Dependency,
}

/// What `cbld update <only>` resolves afresh: the dependency that
/// [`update_target`] finds, with its version and features kept and no tag,
/// so that it moves to the newest commit of its version.
pub fn reresolution_request(resolved: &[ResolvedDep], only: &str) -> (r: Result<Reresolution>)
    ensures
        match r {
            Ok(q) => q.position < resolved@.len() && resolved@[q.position as int].name@ == package_name_spec(only@)
                && (forall|j: int| 0 <= j < q.position ==> #[trigger] resolved@[j].name@ != package_name_spec(only@))
                && q.shorthand@ == resolved@[q.position as int].shorthand@
                && q.spec.version@ == resolved@[q.position as int].version@
                && q.spec.features@ == resolved@[q.position as int].features@
                && q.spec.tag is None,
            Err(e) => !is_locked(resolved@, package_name_spec(only@)) && (e matches CbldError::Resolution(m) && m@
                == not_a_dependency_message(only@)),
        },
{
    let pos = update_target(resolved, only)?;
    let dep = &resolved[pos];
    Ok(Reresolution {
        position: pos,
        shorthand: dep.shorthand.clone(),
        spec: Dependency { version: dep.version.clone(), features: clone_strings(&dep.features), tag: None },
    })
}

/// The lock that `cbld update` pins the other dependencies to: the existing
/// one when a single package is updated, none when everything is.
pub fn update_pin<T>(only: Option<&str>, existing: Option<T>) -> (r: Option<T>)
    ensures
        r == if only is Some { existing } else { None },
{
    match only {
        Some(_) => existing,
        None => None,
    }
}

/// The names of the directories among the entries `(name, is_directory)`
/// of a listing, in order.
pub open spec fn dir_names(entries: Seq<(String, bool)>) -> Seq<Seq<char>>
    decreases entries.len(),
{
    if entries.len() == 0 {
        seq![]
    } else {
        dir_names(entries.drop_last()) + if entries.last().1 {
            seq![entries.last().0@]
        } else {
            seq![]
        }
    }
}

/// Whether a build goes through `third_party/`, given the entries
/// `(name, is_directory)` of that directory (none when it does not exist):
/// `None` when it is missing or empty, so dependencies are fetched as
/// usual; otherwise the vendored checkouts, its subdirectories in listing
/// order.
pub fn vendored_dirs(entries: &[(String, bool)]) -> (r: Option<Vec<String>>)
    ensures
        entries@.len() == 0 ==> r is None,
        entries@.len() > 0 ==> (r matches Some(v) && views(v@) == dir_names(entries@)),
{
    if entries.len() == 0 {
        return None;
    }
    let mut dirs: Vec<String> = Vec::new();
    assert(views(dirs@) =~= dir_names(entries@.take(0)));
    for i in 0..entries.len()
        invariant
            views(dirs@) == dir_names(entries@.take(i as int)),
    {
        assert(entries@.take(i + 1).drop_last() =~= entries@.take(i as int));
        let ghost before = views(dirs@);
        if entries[i].1 {
            dirs.push(entries[i].0.clone());
            assert(views(dirs@) =~= before.push(entries@[i as int].0@));
        }
        assert(dir_names(entries@.take(i + 1)) =~= before + if entries@[i as int].1 {
            seq![entries@[i as int].0@]
        } else {
            seq![]
        });
    }
    assert(entries@.take(entries@.len() as int) =~= entries@);
    Some(dirs)
}

} // verus!
