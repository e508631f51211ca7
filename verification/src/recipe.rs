//! Overlay recipes for upstream trees that ship no `cbld.toml`.
//!
//! A recipe tells cbld how to treat a cloned repository: artifact kind,
//! which files to compile, which directories to put on the include path.
//! The clone itself is never rewritten. If the clone already has a
//! `cbld.toml`, that file wins and the recipe is ignored.
use vstd::prelude::*;

use crate::assoc::{
    assoc_insert, assoc_position, entries_map, keys_ascending, lemma_entries_map_dom, lemma_entries_map_value,
};
use crate::error::{CbldError, Result};
use crate::manifest::{Manifest, Package};
use crate::order::{key_lt, lemma_key_lt_asymmetric, lemma_key_lt_irreflexive, lemma_key_lt_total};
use crate::text::{
    chars_eq, chars_of, clone_opt, clone_strings, find_char, find_char_from, lemma_find_char,
    lines_of, lines_spec, nat_digits, push_str, push_u64, string_from, strip_prefix_all,
    strip_suffix_all, sub_chars, trim_bounds, trim_end, trim_end_char, trim_end_matches,
    trim_start_matches, trim_ws, words_of, words_spec,
};

verus! {

/// One overlay recipe, keyed by the consumer's `[dependencies]` shorthand
/// (e.g. `gh:nlohmann/json`).
#[derive(Debug, Clone)]
pub struct Recipe {
    /// Upstream git URL. When set, this wins over the built-in `gh:` heuristic.
    pub git: Option<String>,
    /// `[package] kind`: `header` (include-only) or `lib` / `bin`.
    pub kind: Option<String>,
    pub source_dir: Option<String>,
    pub include_dirs: Vec<String>,
    /// Glob patterns selecting the files to compile (`include = [..]`).
    pub include_globs: Vec<String>,
    pub exclude: Vec<String>,
    pub defines: Vec<String>,
    pub ignore_warnings: bool,
}

/// A recipe that only maps a shorthand to `url`: every other field is unset.
pub open spec fn is_url_only(r: Recipe, url: Seq<char>) -> bool {
    &&& r.git matches Some(g) && g@ == url
    &&& r.kind is None
    &&& r.source_dir is None
    &&& r.include_dirs@.len() == 0
    &&& r.include_globs@.len() == 0
    &&& r.exclude@.len() == 0
    &&& r.defines@.len() == 0
    &&& !r.ignore_warnings
}

/// A recipe is an overlay when it says more than where to clone from: it
/// can stand in for a missing `cbld.toml`.
pub open spec fn recipe_is_overlay(r: Recipe) -> bool {
    ||| r.kind is Some
    ||| r.source_dir is Some
    ||| r.include_dirs@.len() > 0
    ||| r.include_globs@.len() > 0
    ||| r.exclude@.len() > 0
    ||| r.defines@.len() > 0
    ||| r.ignore_warnings
}

impl Default for Recipe {
    fn default() -> (r: Recipe)
        ensures
            r.git is None,
            r.kind is None,
            r.source_dir is None,
            r.include_dirs@.len() == 0,
            r.include_globs@.len() == 0,
            r.exclude@.len() == 0,
            r.defines@.len() == 0,
            !r.ignore_warnings,
    {
        Recipe {
            git: None,
            kind: None,
            source_dir: None,
            include_dirs: Vec::new(),
            include_globs: Vec::new(),
            exclude: Vec::new(),
            defines: Vec::new(),
            ignore_warnings: false,
        }
    }
}

/// The manifest an overlay recipe stands for, for a package `name` at `version`.
pub open spec fn is_overlay_manifest(m: Manifest, r: Recipe, name: Seq<char>, version: Seq<char>) -> bool {
    &&& m.workspace is None
    &&& m.dependencies@.len() == 0
    &&& m.features@.len() == 0
    &&& m.package matches Some(p) && {
        &&& p.name@ == name
        &&& p.version@ == version
        &&& p.description is None
        &&& p.authors@.len() == 0
        &&& p.toolchain is None
        &&& p.target is None
        &&& p.source_dir@ == match r.source_dir {
            Some(d) => d@,
            None => "src"@,
        }
        &&& p.include_dirs@ == r.include_dirs@
        &&& p.defines@ == r.defines@
        &&& p.libs@.len() == 0
        &&& p.pkg_config@.len() == 0
        &&& p.ignore_warnings == r.ignore_warnings
        &&& p.kind == r.kind
        &&& p.include_globs@ == r.include_globs@
        &&& p.exclude@ == r.exclude@
    }
}

impl Recipe {
    /// True when this entry is more than a URL mapping: it can stand in for a
    /// missing `cbld.toml` in the clone.
    pub fn is_overlay(&self) -> (b: bool)
        ensures
            b == recipe_is_overlay(*self),
    {
        self.kind.is_some() || self.source_dir.is_some() || self.include_dirs.len() > 0
            || self.include_globs.len() > 0 || self.exclude.len() > 0 || self.defines.len() > 0
            || self.ignore_warnings
    }

    /// Materialize a synthetic manifest for an overlay checkout.
    pub fn to_manifest(&self, name: &str, version: &str) -> (m: Manifest)
        ensures
            is_overlay_manifest(m, *self, name@, version@),
    {
        let source_dir = match &self.source_dir {
            Some(d) => d.clone(),
            None => "src".to_owned(),
        };
        let package = Package {
            name: name.to_owned(),
            version: version.to_owned(),
            description: None,
            authors: Vec::new(),
            toolchain: None,
            target: None,
            source_dir,
            include_dirs: clone_strings(&self.include_dirs),
            defines: clone_strings(&self.defines),
            libs: Vec::new(),
            pkg_config: Vec::new(),
            ignore_warnings: self.ignore_warnings,
            kind: clone_opt(&self.kind),
            include_globs: clone_strings(&self.include_globs),
            exclude: clone_strings(&self.exclude),
        };
        Manifest {
            package: Some(package),
            workspace: None,
            dependencies: Vec::new(),
            features: Vec::new(),
        }
    }
}

/// Whether some string of `v` has the characters `k`.
pub open spec fn lists_key(v: Seq<String>, k: Seq<char>) -> bool {
    exists|a: int| 0 <= a < v.len() && #[trigger] v[a]@ == k
}

/// Whether one of the first `n` entries has key `k` and an overlay recipe.
pub open spec fn overlay_key_before(s: Seq<(String, Recipe)>, n: int, k: Seq<char>) -> bool {
    exists|j: int| 0 <= j < n && #[trigger] s[j].0@ == k && recipe_is_overlay(s[j].1)
}

/// Parsed package index: shorthand → recipe (URL mapping and/or overlay).
/// The entries are kept in ascending key order.
#[derive(Debug)]
pub struct PackageIndex {
    entries: Vec<(String, Recipe)>,
}

impl PackageIndex {
    #[verifier::type_invariant]
    spec fn keys_in_order(self) -> bool {
        keys_ascending(self.entries@)
    }

    /// The index as a map from shorthand to recipe.
    pub closed spec fn recipes(self) -> Map<Seq<char>, Recipe> {
        entries_map(self.entries@)
    }
}

impl View for PackageIndex {
    type V = Map<Seq<char>, Recipe>;

    open spec fn view(&self) -> Map<Seq<char>, Recipe> {
        self.recipes()
    }
}

impl Default for PackageIndex {
    fn default() -> (r: PackageIndex)
        ensures
            r@ == Map::<Seq<char>, Recipe>::empty(),
    {
        proof {
            reveal(keys_ascending);
            reveal(entries_map);
        }
        PackageIndex { entries: Vec::new() }
    }
}

impl PackageIndex {
    /// Set the recipe of `key`, replacing any recipe it had.
    pub fn insert(&mut self, key: String, recipe: Recipe)
        ensures
            final(self)@ == old(self)@.insert(key@, recipe),
    {
        proof {
            use_type_invariant(&*self);
        }
        let mut entries: Vec<(String, Recipe)> = Vec::new();
        proof {
            reveal(keys_ascending);
        }
        std::mem::swap(&mut entries, &mut self.entries);
        assoc_insert(&mut entries, key, recipe);
        self.entries = entries;
    }

    /// The recipe for `shorthand`, if the index has one.
    pub fn get(&self, shorthand: &str) -> (r: Option<&Recipe>)
        ensures
            match r {
                Some(x) => self@.contains_key(shorthand@) && *x == self@[shorthand@],
                None => !self@.contains_key(shorthand@),
            },
    {
        proof {
            use_type_invariant(self);
        }
        let k = chars_of(shorthand);
        match assoc_position(&self.entries, &k) {
            Some(i) => {
                proof {
                    lemma_entries_map_value(self.entries@, i as int);
                }
                Some(&self.entries[i].1)
            },
            None => {
                proof {
                    lemma_entries_map_dom(self.entries@, shorthand@);
                }
                None
            },
        }
    }

    /// The git URL recorded for `shorthand`, if any.
    pub fn git_url(&self, shorthand: &str) -> (r: Option<&str>)
        ensures
            match r {
                Some(u) => self@.contains_key(shorthand@) && (self@[shorthand@].git matches Some(g) && u@ == g@),
                None => !self@.contains_key(shorthand@) || self@[shorthand@].git is None,
            },
    {
        match self.get(shorthand) {
            Some(recipe) => match &recipe.git {
                Some(g) => Some(g.as_str()),
                None => None,
            },
            None => None,
        }
    }
}

impl PackageIndex {
    /// Add `es` in order; a later entry replaces an earlier recipe of its key.
    fn insert_all(&mut self, es: Vec<(String, Recipe)>)
        ensures
            final(self)@ == old(self)@.union_prefer_right(entries_map(es@)),
    {
        let ghost src = es@;
        let ghost start = self@;
        let mut es = es;
        let ghost mut done: int = 0;
        reveal(entries_map);
        assert(src.take(0) =~= Seq::<(String, Recipe)>::empty());
        assert(start.union_prefer_right(entries_map(src.take(0))) =~= start);
        while es.len() > 0
            invariant
                0 <= done <= src.len(),
                es@ == src.skip(done),
                self@ == start.union_prefer_right(entries_map(src.take(done))),
            decreases es@.len(),
        {
            let (k, r) = es.remove(0);
            proof {
                reveal(entries_map);
                assert(src[done] == (k, r));
                assert(src.take(done + 1).drop_last() =~= src.take(done));
                assert(src.take(done + 1).last() == (k, r));
                assert(start.union_prefer_right(entries_map(src.take(done + 1))) =~= start.union_prefer_right(
                    entries_map(src.take(done)),
                ).insert(k@, r));
                done = done + 1;
                assert(es@ =~= src.skip(done));
            }
            self.insert(k, r);
        }
        assert(src.take(done) =~= src);
    }

    /// Entries in `other` replace the same keys in `self`.
    pub fn merge(&mut self, other: PackageIndex)
        ensures
            final(self)@ == old(self)@.union_prefer_right(other@),
    {
        self.insert_all(other.entries);
    }

    /// Shorthands that can stand in for a missing `cbld.toml`, in ascending order.
    pub fn overlay_shorthands(&self) -> (r: Vec<String>)
        ensures
            forall|a: int, b: int| 0 <= a < b < r@.len() ==> key_lt(#[trigger] r@[a]@, #[trigger] r@[b]@),
            forall|k: Seq<char>| #[trigger] lists_key(r@, k) <==> (
                self@.contains_key(k) && recipe_is_overlay(self@[k])),
    {
        proof {
            use_type_invariant(self);
        }
        let ghost s = self.entries@;
        let mut out: Vec<String> = Vec::new();
        for i in 0..self.entries.len()
            invariant
                s == self.entries@,
                keys_ascending(s),
                forall|a: int, b: int| 0 <= a < b < out@.len() ==> key_lt(#[trigger] out@[a]@, #[trigger] out@[b]@),
                forall|a: int, j: int| 0 <= a < out@.len() && i <= j < s.len() ==> key_lt(#[trigger] out@[a]@, #[trigger] s[j].0@),
                forall|k: Seq<char>| #[trigger] lists_key(out@, k) <==> overlay_key_before(s, i as int, k),
        {
            let ghost before = out@;
            let keep = self.entries[i].1.is_overlay();
            if keep {
                out.push(self.entries[i].0.clone());
            }
            proof {
                assert forall|k: Seq<char>| #[trigger] lists_key(out@, k) <==> overlay_key_before(s, i + 1, k) by {
                    assert(lists_key(before, k) <==> overlay_key_before(s, i as int, k));
                    if lists_key(out@, k) {
                        let a = choose|a: int| 0 <= a < out@.len() && #[trigger] out@[a]@ == k;
                        if a < before.len() {
                            assert(before[a]@ == k);
                            assert(lists_key(before, k));
                            let j = choose|j: int| 0 <= j < i && #[trigger] s[j].0@ == k && recipe_is_overlay(s[j].1);
                            assert(s[j].0@ == k);
                        } else {
                            assert(s[i as int].0@ == k);
                        }
                    }
                    if overlay_key_before(s, i + 1, k) {
                        let j = choose|j: int| 0 <= j < i + 1 && #[trigger] s[j].0@ == k && recipe_is_overlay(s[j].1);
                        if j < i {
                            assert(s[j].0@ == k);
                            assert(overlay_key_before(s, i as int, k));
                            let a = choose|a: int| 0 <= a < before.len() && #[trigger] before[a]@ == k;
                            assert(out@[a]@ == k);
                        } else {
                            assert(out@[before.len() as int]@ == k);
                        }
                    }
                }
                assert forall|a: int, j: int| 0 <= a < out@.len() && i + 1 <= j < s.len() implies key_lt(#[trigger] out@[a]@, #[trigger] s[j].0@) by {
                    if a < before.len() {
                        assert(out@[a] == before[a]);
                    } else {
                        reveal(keys_ascending);
                        assert(key_lt(s[i as int].0@, s[j].0@));
                    }
                }
            }
        }
        proof {
            assert forall|k: Seq<char>| #[trigger] overlay_key_before(s, s.len() as int, k) <==> (
                self@.contains_key(k) && recipe_is_overlay(self@[k])) by {
                lemma_entries_map_dom(s, k);
                if exists|j: int| 0 <= j < s.len() && #[trigger] s[j].0@ == k && recipe_is_overlay(s[j].1) {
                    let j = choose|j: int| 0 <= j < s.len() && #[trigger] s[j].0@ == k && recipe_is_overlay(s[j].1);
                    lemma_entries_map_value(s, j);
                }
                if self@.contains_key(k) && recipe_is_overlay(self@[k]) {
                    let j = choose|j: int| 0 <= j < s.len() && #[trigger] s[j].0@ == k;
                    lemma_entries_map_value(s, j);
                }
            }
        }
        out
    }
}

/// A git URL with surrounding whitespace, leading `git+`, trailing `/` and
/// trailing `.git` removed, so that spellings of one repository compare equal.
pub open spec fn normalize_git_url_spec(url: Seq<char>) -> Seq<char> {
    strip_suffix_all(
        trim_end_char(strip_prefix_all(trim_ws(url), seq!['g', 'i', 't', '+']), '/'),
        seq!['.', 'g', 'i', 't'],
    )
}

/// A repository URL written plainly: not empty, no surrounding whitespace,
/// no `git+` scheme prefix, no trailing `/` and no trailing `.git`.
pub open spec fn plain_git_url(u: Seq<char>) -> bool {
    &&& u.len() > 0
    &&& !crate::text::is_unicode_ws(u[0])
    &&& !crate::text::is_unicode_ws(u.last())
    &&& !(u.len() >= 4 && u.take(4) == seq!['g', 'i', 't', '+'])
    &&& u.last() != '/'
    &&& !(u.len() >= 4 && u.skip(u.len() - 4) == seq!['.', 'g', 'i', 't'])
}

/// Law: a normalized URL never ends in `.git`.
pub proof fn lemma_normalized_url_has_no_git_suffix(url: Seq<char>)
    ensures
        !(normalize_git_url_spec(url).len() >= 4 && normalize_git_url_spec(url).skip(
            normalize_git_url_spec(url).len() - 4,
        ) == seq!['.', 'g', 'i', 't']),
{
    lemma_strip_suffix_all_done(
        trim_end_char(strip_prefix_all(trim_ws(url), seq!['g', 'i', 't', '+']), '/'),
        seq!['.', 'g', 'i', 't'],
    );
}

proof fn lemma_strip_suffix_all_done(s: Seq<char>, p: Seq<char>)
    requires
        p.len() > 0,
    ensures
        !(p.len() <= strip_suffix_all(s, p).len() && strip_suffix_all(s, p).skip(strip_suffix_all(s, p).len() - p.len())
            == p),
    decreases s.len(),
{
    if p.len() <= s.len() && s.skip(s.len() - p.len()) == p {
        lemma_strip_suffix_all_done(s.take(s.len() - p.len()), p);
    }
}

proof fn lemma_trim_ws_plain(u: Seq<char>)
    requires
        u.len() > 0,
        !crate::text::is_unicode_ws(u[0]),
        !crate::text::is_unicode_ws(u.last()),
    ensures
        trim_ws(u) == u,
{
    assert(crate::text::trim_start_ws(u) == u);
}

/// Law: the spellings of one repository URL normalize alike. A plainly
/// written URL is its own normal form, and adding a `git+` prefix, a
/// trailing `.git`, a trailing `/` or both prefix and `.git` leaves the
/// normal form unchanged.
pub proof fn lemma_git_url_spellings(u: Seq<char>)
    requires
        plain_git_url(u),
    ensures
        normalize_git_url_spec(u) == u,
        normalize_git_url_spec(u + seq!['.', 'g', 'i', 't']) == u,
        normalize_git_url_spec(u + seq!['/']) == u,
        normalize_git_url_spec(seq!['g', 'i', 't', '+'] + u) == u,
        normalize_git_url_spec(seq!['g', 'i', 't', '+'] + u + seq!['.', 'g', 'i', 't']) == u,
        normalize_git_url_spec(seq![' '] + u + seq![' ']) == u,
{
    let g = seq!['.', 'g', 'i', 't'];
    let pre = seq!['g', 'i', 't', '+'];
    // The plain form.
    lemma_trim_ws_plain(u);
    assert(strip_prefix_all(u, pre) == u);
    assert(trim_end_char(u, '/') == u);
    assert(strip_suffix_all(u, g) == u);
    // With `.git`.
    let ug = u + g;
    assert(ug.last() == 't');
    assert(ug[0] == u[0]);
    lemma_trim_ws_plain(ug);
    assert(!(ug.take(4) == pre)) by {
        if u.len() >= 4 {
            assert(ug.take(4) =~= u.take(4));
        } else {
            assert(ug.take(4)[u.len() as int] == '.');
            assert(pre[u.len() as int] != '.');
        }
    }
    assert(strip_prefix_all(ug, pre) == ug);
    assert(trim_end_char(ug, '/') == ug);
    assert(ug.skip(ug.len() - 4) =~= g);
    assert(ug.take(ug.len() - 4) =~= u);
    assert(strip_suffix_all(ug, g) == strip_suffix_all(u, g));
    // With `/`.
    let us = u + seq!['/'];
    assert(us[0] == u[0]);
    assert(us.last() == '/');
    assert(crate::text::is_unicode_ws('/') == false);
    lemma_trim_ws_plain(us);
    assert(!(4 <= us.len() && us.take(4) == pre)) by {
        if u.len() >= 4 {
            assert(us.take(4) =~= u.take(4));
        } else if us.len() >= 4 {
            assert(us.take(4)[3] == '/');
        }
    }
    assert(strip_prefix_all(us, pre) == us);
    assert(us.drop_last() =~= u);
    assert(trim_end_char(us, '/') == trim_end_char(u, '/'));
    // With `git+`.
    let pu = pre + u;
    assert(pu[0] == 'g');
    assert(pu.last() == u.last());
    lemma_trim_ws_plain(pu);
    assert(pu.take(4) =~= pre);
    assert(pu.skip(4) =~= u);
    assert(strip_prefix_all(pu, pre) == strip_prefix_all(u, pre));
    // With both.
    let pug = pre + u + g;
    assert(pug[0] == 'g');
    assert(pug.last() == 't');
    lemma_trim_ws_plain(pug);
    assert(pug.take(4) =~= pre);
    assert(pug.skip(4) =~= ug);
    assert(strip_prefix_all(pug, pre) == strip_prefix_all(ug, pre));
    // With surrounding spaces.
    let sp = seq![' '] + u + seq![' '];
    assert(crate::text::is_unicode_ws(' '));
    assert(sp.drop_first() =~= u + seq![' ']);
    let us2 = u + seq![' '];
    assert(us2[0] == u[0]);
    assert(crate::text::trim_start_ws(us2) == us2);
    assert(crate::text::trim_start_ws(sp) == us2);
    assert(us2.drop_last() =~= u);
    assert(crate::text::trim_end_ws(u) == u);
    assert(crate::text::trim_end_ws(us2) == u);
    assert(trim_ws(sp) == u);
}

/// Exec form of [`normalize_git_url_spec`].
fn normalize_git_url(url: &str) -> (r: Vec<char>)
    ensures
        r@ == normalize_git_url_spec(url@),
{
    let v = chars_of(url);
    let (a, b) = trim_bounds(&v);
    let trimmed = sub_chars(&v, a, b);
    let git_plus = vec!['g', 'i', 't', '+'];
    assert(git_plus@ == seq!['g', 'i', 't', '+']);
    let dot_git = vec!['.', 'g', 'i', 't'];
    assert(dot_git@ == seq!['.', 'g', 'i', 't']);
    let no_scheme = trim_start_matches(&trimmed, &git_plus);
    let no_slash = trim_end(&no_scheme, '/');
    trim_end_matches(&no_slash, &dot_git)
}

/// The recipe of `k` in `m` names a git URL that normalizes to `want`.
pub open spec fn url_match(m: Map<Seq<char>, Recipe>, k: Seq<char>, want: Seq<char>) -> bool {
    m.contains_key(k) && (m[k].git matches Some(g) && normalize_git_url_spec(g@) == want)
}

/// `k` is the least key (in `str` order) whose recipe matches `want`.
pub open spec fn least_url_match(m: Map<Seq<char>, Recipe>, k: Seq<char>, want: Seq<char>) -> bool {
    url_match(m, k, want) && forall|k2: Seq<char>| #[trigger] url_match(m, k2, want) ==> !key_lt(k2, k)
}

/// The key under which a recipe is found for a dependency: its shorthand
/// when the index has it, else the first key in order whose git URL is the
/// dependency's URL once both are normalized.
pub open spec fn recipe_key(m: Map<Seq<char>, Recipe>, shorthand: Seq<char>, git_url: Seq<char>) -> Option<Seq<char>> {
    if m.contains_key(shorthand) {
        Some(shorthand)
    } else if exists|k: Seq<char>| #[trigger] least_url_match(m, k, normalize_git_url_spec(git_url)) {
        Some(choose|k: Seq<char>| #[trigger] least_url_match(m, k, normalize_git_url_spec(git_url)))
    } else {
        None
    }
}

/// At most one key is the least match.
proof fn lemma_least_url_match_unique(m: Map<Seq<char>, Recipe>, a: Seq<char>, b: Seq<char>, want: Seq<char>)
    requires
        least_url_match(m, a, want),
        least_url_match(m, b, want),
    ensures
        a == b,
{
    lemma_key_lt_total(a, b);
}

impl PackageIndex {
    /// Look up a recipe by shorthand first, then by git URL (vendor path:
    /// the lockfile stores `git+https://...`, not the declared shorthand).
    pub fn find(&self, shorthand: &str, git_url: &str) -> (r: Option<(&str, &Recipe)>)
        ensures
            match r {
                Some((k, rec)) => recipe_key(self@, shorthand@, git_url@) == Some(k@) && *rec == self@[k@],
                None => recipe_key(self@, shorthand@, git_url@) is None,
            },
    {
        proof {
            use_type_invariant(self);
        }
        let ghost s = self.entries@;
        let sv = chars_of(shorthand);
        if let Some(i) = assoc_position(&self.entries, &sv) {
            proof {
                lemma_entries_map_value(s, i as int);
            }
            return Some((self.entries[i].0.as_str(), &self.entries[i].1));
        }
        proof {
            lemma_entries_map_dom(s, shorthand@);
        }
        let want = normalize_git_url(git_url);
        let ghost m = self@;
        for i in 0..self.entries.len()
            invariant
                s == self.entries@,
                m == self@,
                m == entries_map(s),
                keys_ascending(s),
                !m.contains_key(shorthand@),
                want@ == normalize_git_url_spec(git_url@),
                forall|j: int| 0 <= j < i ==> !url_match(m, #[trigger] s[j].0@, want@),
        {
            proof {
                lemma_entries_map_value(s, i as int);
            }
            if let Some(g) = &self.entries[i].1.git {
                let got = normalize_git_url(g.as_str());
                if chars_eq(&got, &want) {
                    proof {
                        let k = s[i as int].0@;
                        assert(url_match(m, k, want@));
                        assert forall|k2: Seq<char>| #[trigger] url_match(m, k2, want@) implies !key_lt(k2, k) by {
                            lemma_entries_map_dom(s, k2);
                            let y = choose|y: int| 0 <= y < s.len() && #[trigger] s[y].0@ == k2;
                            lemma_entries_map_value(s, y);
                            if y < i {
                                assert(!url_match(m, s[y].0@, want@));
                            } else if y == i {
                                lemma_key_lt_irreflexive(k);
                            } else {
                                reveal(keys_ascending);
                                assert(key_lt(s[i as int].0@, s[y].0@));
                                lemma_key_lt_asymmetric(k, k2);
                            }
                        }
                        assert(least_url_match(m, k, want@));
                        let c = choose|c: Seq<char>| #[trigger] least_url_match(m, c, want@);
                        lemma_least_url_match_unique(m, c, k, want@);
                    }
                    return Some((self.entries[i].0.as_str(), &self.entries[i].1));
                }
            }
        }
        proof {
            assert forall|k: Seq<char>| !#[trigger] least_url_match(m, k, want@) by {
                if url_match(m, k, want@) {
                    lemma_entries_map_dom(s, k);
                    let y = choose|y: int| 0 <= y < s.len() && #[trigger] s[y].0@ == k;
                    lemma_entries_map_value(s, y);
                    assert(!url_match(m, s[y].0@, want@));
                }
            }
        }
        None
    }
}

/// The part of a line before its first `#`.
pub open spec fn before_hash(line: Seq<char>) -> Seq<char> {
    line.take(find_char(line, 0, '#'))
}

/// What a line of an index file says: its text before any `#`, trimmed.
pub open spec fn line_content(line: Seq<char>) -> Seq<char> {
    trim_ws(before_hash(line))
}

/// A line that reads as TOML: a table header or a `key = value` pair.
pub open spec fn toml_hint(content: Seq<char>) -> bool {
    (content.len() > 0 && content[0] == '[') || content.contains('=')
}

/// Whether an index text is TOML rather than `shorthand <url>` lines.
pub open spec fn looks_like_toml_spec(text: Seq<char>) -> bool {
    exists|i: int| 0 <= i < lines_spec(text).len() && #[trigger] toml_hint(line_content(lines_spec(text)[i]))
}

/// A line of the line format is blank or holds a shorthand and a URL.
pub open spec fn legacy_line_ok(line: Seq<char>) -> bool {
    line_content(line).len() == 0 || words_spec(line_content(line)).len() >= 2
}

/// Index of the first malformed line at or after `i`, or the line count.
pub open spec fn first_bad_line(lines: Seq<Seq<char>>, i: int) -> int
    decreases lines.len() - i,
{
    if i < 0 || i >= lines.len() {
        lines.len() as int
    } else if !legacy_line_ok(lines[i]) {
        i
    } else {
        first_bad_line(lines, i + 1)
    }
}

/// The shorthand → URL mapping of well-formed lines, a later line winning.
pub open spec fn legacy_urls(lines: Seq<Seq<char>>) -> Map<Seq<char>, Seq<char>>
    decreases lines.len(),
{
    if lines.len() == 0 {
        Map::empty()
    } else {
        let prev = legacy_urls(lines.drop_last());
        let words = words_spec(line_content(lines.last()));
        if words.len() >= 2 {
            prev.insert(words[0], words[1])
        } else {
            prev
        }
    }
}

/// The message for a malformed line (`line` counts from 1).
pub open spec fn malformed_line_message(origin: Seq<char>, line: nat, raw: Seq<char>) -> Seq<char> {
    "malformed mapping in "@ + origin + " on line "@ + nat_digits(line) + ": '"@ + raw + "'"@
}

/// What parsing `text` in the line format gives: the first malformed line
/// is an error; otherwise each shorthand maps to a URL-only recipe.
pub open spec fn legacy_outcome(r: Result<PackageIndex>, text: Seq<char>, origin: Seq<char>) -> bool {
    let lines = lines_spec(text);
    let bad = first_bad_line(lines, 0);
    if bad < lines.len() {
        r matches Err(CbldError::Resolution(m)) && m@ == malformed_line_message(origin, (bad + 1) as nat, lines[bad])
    } else {
        r matches Ok(idx) && idx@.dom() == legacy_urls(lines).dom() && forall|k: Seq<char>|
            #[trigger] idx@.contains_key(k) ==> is_url_only(idx@[k], legacy_urls(lines)[k])
    }
}

/// The content of one line, with its words.
fn content_of(line: &[char]) -> (r: Vec<char>)
    ensures
        r@ == line_content(line@),
{
    let h = find_char_from(line, 0, '#');
    proof {
        lemma_find_char(line@, 0, '#');
    }
    let before = sub_chars(line, 0, h);
    assert(before@ == before_hash(line@));
    let (a, b) = trim_bounds(&before);
    sub_chars(&before, a, b)
}

/// Whether an index text is TOML (some line opens a table or sets a key).
pub fn looks_like_toml(text: &str) -> (r: bool)
    ensures
        r == looks_like_toml_spec(text@),
{
    let v = chars_of(text);
    let lines = lines_of(&v);
    let ghost ls = lines_spec(text@);
    assert(lines@.len() == ls.len() && forall|j: int| 0 <= j < ls.len() ==> #[trigger] ls[j] == lines@[j]@) by {
        assert(lines@.map_values(|l: Vec<char>| l@).len() == lines@.len());
        assert forall|j: int| 0 <= j < ls.len() implies #[trigger] ls[j] == lines@[j]@ by {
            assert(lines@.map_values(|l: Vec<char>| l@)[j] == lines@[j]@);
        }
    }
    for i in 0..lines.len()
        invariant
            lines@.len() == ls.len(),
            forall|j: int| 0 <= j < ls.len() ==> #[trigger] ls[j] == lines@[j]@,
            ls == lines_spec(text@),
            forall|j: int| 0 <= j < i ==> !#[trigger] toml_hint(line_content(ls[j])),
    {
        let c = content_of(&lines[i]);
        let mut hit = c.len() > 0 && c[0] == '[';
        let mut k: usize = 0;
        while k < c.len() && !hit
            invariant
                k <= c@.len(),
                hit == ((c@.len() > 0 && c@[0] == '[') || exists|j: int| 0 <= j < k && c@[j] == '='),
            decreases c@.len() - k,
        {
            if c[k] == '=' {
                hit = true;
            }
            k += 1;
        }
        proof {
            if !hit {
                assert(!c@.contains('='));
            } else if !(c@.len() > 0 && c@[0] == '[') {
                let j = choose|j: int| 0 <= j < k && c@[j] == '=';
                assert(c@.contains('='));
            }
            assert(c@ == line_content(ls[i as int]));
        }
        if hit {
            assert(toml_hint(line_content(ls[i as int])));
            return true;
        }
    }
    false
}

/// The malformed-line error.
fn malformed_line(origin: &str, line: usize, raw: &[char]) -> (e: CbldError)
    ensures
        e matches CbldError::Resolution(m) && m@ == malformed_line_message(origin@, line as nat, raw@),
{
    let mut m = String::new();
    push_str(&mut m, "malformed mapping in ");
    push_str(&mut m, origin);
    push_str(&mut m, " on line ");
    push_u64(&mut m, line as u64);
    push_str(&mut m, ": '");
    let raw_text = string_from(raw);
    push_str(&mut m, raw_text.as_str());
    push_str(&mut m, "'");
    CbldError::Resolution(m)
}

/// Parse the legacy `shorthand <url>` line format.
fn parse_legacy(text: &str, origin: &str) -> (r: Result<PackageIndex>)
    ensures
        legacy_outcome(r, text@, origin@),
{
    let v = chars_of(text);
    let lines = lines_of(&v);
    let ghost ls = lines_spec(text@);
    assert(lines@.len() == ls.len() && forall|j: int| 0 <= j < ls.len() ==> #[trigger] ls[j] == lines@[j]@) by {
        assert forall|j: int| 0 <= j < ls.len() implies #[trigger] ls[j] == lines@[j]@ by {
            assert(lines@.map_values(|l: Vec<char>| l@)[j] == lines@[j]@);
        }
    }
    let mut idx = PackageIndex::default();
    assert(ls.take(0) =~= Seq::<Seq<char>>::empty());
    for i in 0..lines.len()
        invariant
            lines@.len() == ls.len(),
            forall|j: int| 0 <= j < ls.len() ==> #[trigger] ls[j] == lines@[j]@,
            ls == lines_spec(text@),
            forall|j: int| 0 <= j < i ==> #[trigger] legacy_line_ok(ls[j]),
            idx@.dom() == legacy_urls(ls.take(i as int)).dom(),
            forall|k: Seq<char>| #[trigger] idx@.contains_key(k) ==> is_url_only(idx@[k], legacy_urls(ls.take(i as int))[k]),
    {
        let c = content_of(&lines[i]);
        let words = words_of(&c);
        let ghost ws = words_spec(c@);
        assert(words@.len() == ws.len()) by {
            assert(words@.map_values(|w: Vec<char>| w@).len() == words@.len());
        }
        assert(ls.take(i + 1).drop_last() =~= ls.take(i as int));
        assert(ls.take(i + 1).last() == ls[i as int]);
        if c.len() > 0 {
            if words.len() < 2 {
                proof {
                    assert(!legacy_line_ok(ls[i as int]));
                    lemma_first_bad_line(ls, i as int);
                }
                return Err(malformed_line(origin, i + 1, &lines[i]));
            }
            assert(words@.map_values(|w: Vec<char>| w@)[0] == words@[0]@);
            assert(words@.map_values(|w: Vec<char>| w@)[1] == words@[1]@);
            let key = string_from(&words[0]);
            let url = string_from(&words[1]);
            let ghost urls = legacy_urls(ls.take(i + 1));
            let recipe = Recipe {
                git: Some(url),
                kind: None,
                source_dir: None,
                include_dirs: Vec::new(),
                include_globs: Vec::new(),
                exclude: Vec::new(),
                defines: Vec::new(),
                ignore_warnings: false,
            };
            let ghost before = idx@;
            idx.insert(key, recipe);
            proof {
                assert(idx@.dom() =~= urls.dom());
            }
        } else {
            proof {
                assert(ws.len() == 0);
            }
        }
    }
    proof {
        assert(ls.take(lines@.len() as int) =~= ls);
        lemma_no_bad_line(ls);
    }
    Ok(idx)
}

/// The first bad line is the first line that is not well formed.
proof fn lemma_first_bad_line(lines: Seq<Seq<char>>, i: int)
    requires
        0 <= i < lines.len(),
        forall|j: int| 0 <= j < i ==> #[trigger] legacy_line_ok(lines[j]),
        !legacy_line_ok(lines[i]),
    ensures
        first_bad_line(lines, 0) == i,
{
    lemma_first_bad_from(lines, 0, i);
}

proof fn lemma_first_bad_from(lines: Seq<Seq<char>>, k: int, i: int)
    requires
        0 <= k <= i < lines.len(),
        forall|j: int| 0 <= j < i ==> #[trigger] legacy_line_ok(lines[j]),
        !legacy_line_ok(lines[i]),
    ensures
        first_bad_line(lines, k) == i,
    decreases i - k,
{
    if k < i {
        lemma_first_bad_from(lines, k + 1, i);
    }
}

/// With every line well formed there is no bad line.
proof fn lemma_no_bad_line(lines: Seq<Seq<char>>)
    requires
        forall|j: int| 0 <= j < lines.len() ==> #[trigger] legacy_line_ok(lines[j]),
    ensures
        first_bad_line(lines, 0) == lines.len(),
{
    lemma_no_bad_from(lines, 0);
}

proof fn lemma_no_bad_from(lines: Seq<Seq<char>>, k: int)
    requires
        0 <= k <= lines.len(),
        forall|j: int| 0 <= j < lines.len() ==> #[trigger] legacy_line_ok(lines[j]),
    ensures
        first_bad_line(lines, k) == lines.len(),
    decreases lines.len() - k,
{
    if k < lines.len() {
        lemma_no_bad_from(lines, k + 1);
    }
}

/// What parsing TOML recipes gives: the decoded tables in order, or the
/// reader's message as a resolution error.
pub open spec fn toml_outcome(
    r: Result<PackageIndex>,
    decoded: core::result::Result<Vec<(String, Recipe)>, String>,
    origin: Seq<char>,
) -> bool {
    match decoded {
        Ok(es) => r matches Ok(idx) && idx@ == entries_map(es@),
        Err(m) => r matches Err(CbldError::Resolution(e)) && e@ == "malformed "@ + origin + ": "@ + m@,
    }
}

/// The characters of each string.
pub open spec fn texts(v: Vec<String>) -> Seq<Seq<char>> {
    v@.map_values(|x: String| x@)
}

/// An optional string holding exactly `t`.
pub open spec fn opt_text(o: Option<String>, t: Seq<char>) -> bool {
    o matches Some(x) && x@ == t
}

/// The shipped recipe for `gh:nlohmann/json`: header-only, headers in `include/`.
pub open spec fn is_json_recipe(r: Recipe) -> bool {
    &&& opt_text(r.git, "https://github.com/nlohmann/json.git"@)
    &&& opt_text(r.kind, "header"@)
    &&& r.source_dir is None
    &&& texts(r.include_dirs) == seq!["include"@]
    &&& r.include_globs@.len() == 0
    &&& r.exclude@.len() == 0
    &&& r.defines@.len() == 0
    &&& !r.ignore_warnings
}

/// The shipped recipe for `gh:DaveGamble/cJSON`: one C file at the top level.
pub open spec fn is_cjson_recipe(r: Recipe) -> bool {
    &&& opt_text(r.git, "https://github.com/DaveGamble/cJSON.git"@)
    &&& opt_text(r.kind, "lib"@)
    &&& opt_text(r.source_dir, "."@)
    &&& texts(r.include_dirs) == seq!["."@]
    &&& texts(r.include_globs) == seq!["cJSON.c"@]
    &&& r.exclude@.len() == 0
    &&& r.defines@.len() == 0
    &&& !r.ignore_warnings
}

/// The shipped recipe for `gh:fmtlib/fmt`: the two library sources of `src/`.
pub open spec fn is_fmt_recipe(r: Recipe) -> bool {
    &&& opt_text(r.git, "https://github.com/fmtlib/fmt.git"@)
    &&& opt_text(r.kind, "lib"@)
    &&& opt_text(r.source_dir, "src"@)
    &&& texts(r.include_dirs) == seq!["include"@]
    &&& texts(r.include_globs) == seq!["format.cc"@, "os.cc"@]
    &&& r.exclude@.len() == 0
    &&& r.defines@.len() == 0
    &&& !r.ignore_warnings
}

/// The index shipped with cbld.
pub open spec fn is_builtin_index(m: Map<Seq<char>, Recipe>) -> bool {
    &&& m.dom() == set!["gh:nlohmann/json"@, "gh:DaveGamble/cJSON"@, "gh:fmtlib/fmt"@]
    &&& is_json_recipe(m["gh:nlohmann/json"@])
    &&& is_cjson_recipe(m["gh:DaveGamble/cJSON"@])
    &&& is_fmt_recipe(m["gh:fmtlib/fmt"@])
}

/// The message of a dependency clone that has neither a manifest nor an
/// overlay recipe.
pub open spec fn missing_manifest_reason(shorthand: Seq<char>) -> Seq<char> {
    "missing cbld.toml (and no overlay recipe for '"@ + shorthand + "' in the package index)"@
}

/// `r` reports that the clone at `path` does not follow the cbld standard.
pub open spec fn is_not_standard(r: Result<Manifest>, path: Seq<char>, shorthand: Seq<char>) -> bool {
    r matches Err(CbldError::NotCbldStandard { path: p, reason }) && p@ == path && reason@
        == missing_manifest_reason(shorthand)
}

/// The strings `parts`, in order.
fn strings_of(parts: &[&str]) -> (r: Vec<String>)
    ensures
        r@.len() == parts@.len(),
        forall|i: int| 0 <= i < parts@.len() ==> #[trigger] r@[i]@ == parts@[i]@,
{
    let mut r: Vec<String> = Vec::new();
    for i in 0..parts.len()
        invariant
            r@.len() == i,
            forall|j: int| 0 <= j < i ==> #[trigger] r@[j]@ == parts@[j]@,
    {
        r.push(parts[i].to_owned());
    }
    r
}

impl PackageIndex {
    /// Recipes shipped with cbld.
    pub fn builtin() -> (r: PackageIndex)
        ensures
            is_builtin_index(r@),
    {
        let json = Recipe {
            git: Some("https://github.com/nlohmann/json.git".to_owned()),
            kind: Some("header".to_owned()),
            source_dir: None,
            include_dirs: strings_of(&["include"]),
            include_globs: Vec::new(),
            exclude: Vec::new(),
            defines: Vec::new(),
            ignore_warnings: false,
        };
        let cjson = Recipe {
            git: Some("https://github.com/DaveGamble/cJSON.git".to_owned()),
            kind: Some("lib".to_owned()),
            source_dir: Some(".".to_owned()),
            include_dirs: strings_of(&["."]),
            include_globs: strings_of(&["cJSON.c"]),
            exclude: Vec::new(),
            defines: Vec::new(),
            ignore_warnings: false,
        };
        let fmt = Recipe {
            git: Some("https://github.com/fmtlib/fmt.git".to_owned()),
            kind: Some("lib".to_owned()),
            source_dir: Some("src".to_owned()),
            include_dirs: strings_of(&["include"]),
            include_globs: strings_of(&["format.cc", "os.cc"]),
            exclude: Vec::new(),
            defines: Vec::new(),
            ignore_warnings: false,
        };
        assert(texts(json.include_dirs) =~= seq!["include"@]);
        assert(texts(cjson.include_dirs) =~= seq!["."@]);
        assert(texts(cjson.include_globs) =~= seq!["cJSON.c"@]);
        assert(texts(fmt.include_dirs) =~= seq!["include"@]);
        assert(texts(fmt.include_globs) =~= seq!["format.cc"@, "os.cc"@]);
        let mut idx = PackageIndex::default();
        idx.insert("gh:nlohmann/json".to_owned(), json);
        idx.insert("gh:DaveGamble/cJSON".to_owned(), cjson);
        idx.insert("gh:fmtlib/fmt".to_owned(), fmt);
        proof {
            reveal_strlit("gh:nlohmann/json");
            reveal_strlit("gh:DaveGamble/cJSON");
            reveal_strlit("gh:fmtlib/fmt");
            assert("gh:nlohmann/json"@[3] != "gh:DaveGamble/cJSON"@[3]);
            assert("gh:nlohmann/json"@[3] != "gh:fmtlib/fmt"@[3]);
            assert("gh:DaveGamble/cJSON"@ != "gh:fmtlib/fmt"@);
            assert(idx@.dom() =~= set!["gh:nlohmann/json"@, "gh:DaveGamble/cJSON"@, "gh:fmtlib/fmt"@]);
        }
        idx
    }

    /// Parse either TOML recipes or the legacy `shorthand <url>` line format.
    /// For TOML text, `decoded` is what the TOML reader made of `text`: its
    /// tables in order as (shorthand, recipe), or the reader's message.
    pub fn parse(
        text: &str,
        origin: &str,
        decoded: Option<core::result::Result<Vec<(String, Recipe)>, String>>,
    ) -> (r: Result<PackageIndex>)
        requires
            looks_like_toml_spec(text@) ==> decoded is Some,
        ensures
            looks_like_toml_spec(text@) ==> toml_outcome(r, decoded->0, origin@),
            !looks_like_toml_spec(text@) ==> legacy_outcome(r, text@, origin@),
    {
        if looks_like_toml(text) {
            match decoded {
                Some(Ok(es)) => {
                    let mut idx = PackageIndex::default();
                    idx.insert_all(es);
                    assert(Map::<Seq<char>, Recipe>::empty().union_prefer_right(entries_map(es@)) =~= entries_map(es@));
                    Ok(idx)
                },
                Some(Err(m)) => {
                    let mut e = String::new();
                    push_str(&mut e, "malformed ");
                    push_str(&mut e, origin);
                    push_str(&mut e, ": ");
                    push_str(&mut e, m.as_str());
                    Err(CbldError::Resolution(e))
                },
                None => parse_legacy(text, origin),
            }
        } else {
            parse_legacy(text, origin)
        }
    }

    /// The manifest to build a dependency clone with: the clone's own
    /// `cbld.toml` when it has one (`clone_manifest`, as loaded), otherwise
    /// the overlay recipe found for it. Never writes into the clone.
    pub fn effective_manifest(
        &self,
        cache_path: &str,
        clone_manifest: Option<Result<Manifest>>,
        shorthand: &str,
        git_url: &str,
        name: &str,
        version: &str,
    ) -> (r: Result<Manifest>)
        ensures
            match clone_manifest {
                Some(loaded) => r == loaded,
                None => match recipe_key(self@, shorthand@, git_url@) {
                    Some(k) => if recipe_is_overlay(self@[k]) {
                        r matches Ok(m) && is_overlay_manifest(m, self@[k], name@, version@)
                    } else {
                        is_not_standard(r, cache_path@, shorthand@)
                    },
                    None => is_not_standard(r, cache_path@, shorthand@),
                },
            },
    {
        if let Some(loaded) = clone_manifest {
            return loaded;
        }
        if let Some((_, recipe)) = self.find(shorthand, git_url) {
            if recipe.is_overlay() {
                return Ok(recipe.to_manifest(name, version));
            }
        }
        let mut reason = String::new();
        push_str(&mut reason, "missing cbld.toml (and no overlay recipe for '");
        push_str(&mut reason, shorthand);
        push_str(&mut reason, "' in the package index)");
        Err(CbldError::NotCbldStandard { path: cache_path.to_owned(), reason })
    }
}

/// A recipe read from the line format names only a URL, so it is never an
/// overlay: an index parsed from lines stands in for no `cbld.toml`.
pub proof fn lemma_line_format_has_no_overlays(r: Result<PackageIndex>, text: Seq<char>, origin: Seq<char>)
    requires
        legacy_outcome(r, text, origin),
        r is Ok,
    ensures
        forall|k: Seq<char>| #[trigger] r->Ok_0@.contains_key(k) ==> !recipe_is_overlay(r->Ok_0@[k]),
{
    let idx = r->Ok_0;
    assert forall|k: Seq<char>| #[trigger] idx@.contains_key(k) implies !recipe_is_overlay(idx@[k]) by {
        let lines = lines_spec(text);
        assert(first_bad_line(lines, 0) >= lines.len());
        assert(is_url_only(idx@[k], legacy_urls(lines)[k]));
    }
}

/// After merging `other` into an index, a shorthand of `other` has
/// `other`'s recipe, and every other shorthand keeps the recipe it had.
pub proof fn lemma_merge_lookup(before: Map<Seq<char>, Recipe>, other: Map<Seq<char>, Recipe>, k: Seq<char>)
    ensures
        before.union_prefer_right(other).contains_key(k) == (before.contains_key(k) || other.contains_key(k)),
        other.contains_key(k) ==> before.union_prefer_right(other)[k] == other[k],
        !other.contains_key(k) && before.contains_key(k) ==> before.union_prefer_right(other)[k] == before[k],
{
}

/// A recipe found under the dependency's own shorthand is preferred over
/// any recipe whose git URL matches.
pub proof fn lemma_shorthand_wins(m: Map<Seq<char>, Recipe>, shorthand: Seq<char>, git_url: Seq<char>)
    requires
        m.contains_key(shorthand),
    ensures
        recipe_key(m, shorthand, git_url) == Some(shorthand),
{
}

} // verus!
