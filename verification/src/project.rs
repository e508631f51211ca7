//! Decisions the commands share: which packages a command visits, where
//! their sources and headers are, which target and how many jobs to use,
//! and how a template reference becomes a clone URL.
use vstd::prelude::*;
use vstd::string::StringSliceAdditionalSpecFns;
use vstd::utf8::is_char_boundary;

use crate::error::{CbldError, Result};
use crate::manifest::{Manifest, Package};
use crate::path::{join, join_spec};
use crate::text::{
    join_with, push_str, push_trimmed, views, words_of, words_spec,
    chars_of, contains_chars, has_infix, has_prefix, has_suffix, occurs_at, string_from, strip_suffix_all,
    sub_chars, trim_bounds, trim_end_matches, trim_ws,
};

verus! {

/// The target triple of a build: `--target` when given, else the
/// package's own `[package] target`; `None` builds natively.
pub fn effective_target(cli_target: Option<&str>, manifest: &Manifest) -> (r: Option<String>)
    ensures
        match cli_target {
            Some(t) => r matches Some(s) && s@ == t@,
            None => r == match manifest.package {
                Some(p) => p.target,
                None => None,
            },
        },
{
    match cli_target {
        Some(t) => Some(t.to_owned()),
        None => match &manifest.package {
            Some(p) => match &p.target {
                Some(t) => Some(t.clone()),
                None => None,
            },
            None => None,
        },
    }
}

/// The directory of sources to scan: `--from` when given, else the
/// package's `source_dir` (which already defaults to `src`).
pub fn effective_source_dir(cli_from: Option<&str>, pkg: &Package) -> (r: String)
    ensures
        r@ == match cli_from {
            Some(f) => f@,
            None => pkg.source_dir@,
        },
{
    match cli_from {
        Some(f) => f.to_owned(),
        None => pkg.source_dir.clone(),
    }
}

/// The package's extra `[package] include_dirs`, resolved against its root.
pub fn package_include_dirs(root: &str, pkg: &Package) -> (r: Vec<String>)
    ensures
        r@.len() == pkg.include_dirs@.len(),
        forall|i: int| 0 <= i < r@.len() ==> #[trigger] r@[i]@ == join_spec(root@, pkg.include_dirs@[i]@),
{
    let mut r: Vec<String> = Vec::new();
    for i in 0..pkg.include_dirs.len()
        invariant
            r@.len() == i,
            forall|k: int| 0 <= k < i ==> #[trigger] r@[k]@ == join_spec(root@, pkg.include_dirs@[k]@),
    {
        r.push(join(root, pkg.include_dirs[i].as_str()));
    }
    r
}

/// Include paths a consumer of this package searches: its `src/` and
/// `include/`, then the package's own `include_dirs`.
pub fn dependency_include_dirs(root: &str, pkg: &Package) -> (r: Vec<String>)
    ensures
        r@.len() == pkg.include_dirs@.len() + 2,
        r@[0]@ == join_spec(root@, "src"@),
        r@[1]@ == join_spec(root@, "include"@),
        forall|i: int| 0 <= i < pkg.include_dirs@.len() ==> #[trigger] r@[i + 2]@ == join_spec(root@, pkg.include_dirs@[i]@),
{
    let mut r: Vec<String> = Vec::new();
    r.push(join(root, "src"));
    r.push(join(root, "include"));
    let extra = package_include_dirs(root, pkg);
    for i in 0..extra.len()
        invariant
            r@.len() == i + 2,
            r@[0]@ == join_spec(root@, "src"@),
            r@[1]@ == join_spec(root@, "include"@),
            extra@.len() == pkg.include_dirs@.len(),
            forall|k: int| 0 <= k < extra@.len() ==> #[trigger] extra@[k]@ == join_spec(root@, pkg.include_dirs@[k]@),
            forall|k: int| 0 <= k < i ==> #[trigger] r@[k + 2]@ == join_spec(root@, pkg.include_dirs@[k]@),
    {
        r.push(extra[i].clone());
    }
    r
}

/// The job count: an explicit `-j` floored at one, else the machine's
/// default (`default_jobs`, also floored at one).
pub fn resolve_jobs(explicit: Option<usize>, default_jobs: usize) -> (r: usize)
    ensures
        r == match explicit {
            Some(n) => if n >= 1 { n } else { 1 },
            None => if default_jobs >= 1 { default_jobs } else { 1 },
        },
{
    let n = match explicit {
        Some(n) => n,
        None => default_jobs,
    };
    if n >= 1 { n } else { 1 }
}

/// A commit hash shortened to its first ten bytes.
pub fn short_sha(sha: &str) -> (r: &str)
    requires
        sha.spec_bytes().len() <= usize::MAX,
        sha.spec_bytes().len() >= 10 ==> is_char_boundary(sha.spec_bytes(), 10),
    ensures
        sha.spec_bytes().len() >= 10 ==> r.spec_bytes() == sha.spec_bytes().subrange(0, 10),
        sha.spec_bytes().len() < 10 ==> r == sha,
{
    if sha.len() >= 10 {
        sha.split_at(10).0
    } else {
        sha
    }
}

/// The roots of the packages a command visits: each `[workspace] members`
/// entry under `root` for a workspace, else `root` itself.
pub fn package_roots(root: &str, manifest: &Manifest) -> (r: Result<Vec<String>>)
    ensures
        match manifest.workspace {
            Some(w) => if w.members@.len() == 0 {
                r matches Err(CbldError::LayoutViolation(m)) && m@ == "workspace has no members"@
            } else {
                r matches Ok(v) && v@.len() == w.members@.len() && forall|i: int|
                    0 <= i < v@.len() ==> #[trigger] v@[i]@ == join_spec(root@, w.members@[i]@)
            },
            None => r matches Ok(v) && v@.len() == 1 && v@[0]@ == root@,
        },
{
    match &manifest.workspace {
        Some(w) => {
            if w.members.len() == 0 {
                return Err(CbldError::LayoutViolation("workspace has no members".to_owned()));
            }
            let mut v: Vec<String> = Vec::new();
            for i in 0..w.members.len()
                invariant
                    v@.len() == i,
                    forall|k: int| 0 <= k < i ==> #[trigger] v@[k]@ == join_spec(root@, w.members@[k]@),
            {
                v.push(join(root, w.members[i].as_str()));
            }
            Ok(v)
        },
        None => {
            let mut v: Vec<String> = Vec::new();
            v.push(root.to_owned());
            Ok(v)
        },
    }
}

/// The host URL for a `gh:`/`gl:`/`cb:`/`sh:` template reference, if `t`
/// is one.
pub open spec fn host_url(t: Seq<char>) -> Option<Seq<char>> {
    let dot_git = seq!['.', 'g', 'i', 't'];
    if has_prefix(t, seq!['g', 'h', ':']) {
        Some("https://github.com/"@ + strip_suffix_all(t.skip(3), dot_git) + ".git"@)
    } else if has_prefix(t, seq!['g', 'l', ':']) {
        Some("https://gitlab.com/"@ + strip_suffix_all(t.skip(3), dot_git) + ".git"@)
    } else if has_prefix(t, seq!['c', 'b', ':']) {
        Some("https://codeberg.org/"@ + strip_suffix_all(t.skip(3), dot_git) + ".git"@)
    } else if has_prefix(t, seq!['s', 'h', ':']) {
        Some("https://git.sr.ht/~"@ + strip_suffix_all(t.skip(3), dot_git))
    } else {
        None
    }
}

/// The clone URL of a `cbld init --template` reference. Full URLs, `git@`
/// addresses and `.git` paths stay as written; `gh:`, `gl:`, `cb:` and
/// `sh:` name a repository on GitHub, GitLab, Codeberg or sourcehut; a bare
/// `owner/repo` that is not an existing path (`path_exists`) is on GitHub.
pub open spec fn template_url(tmpl: Seq<char>, path_exists: bool) -> Seq<char> {
    let t = trim_ws(tmpl);
    if has_infix(t, seq![':', '/', '/']) || has_prefix(t, seq!['g', 'i', 't', '@']) || has_suffix(
        t,
        seq!['.', 'g', 'i', 't'],
    ) {
        t
    } else if host_url(t) is Some {
        host_url(t)->0
    } else if t.contains('/') && !t.contains(' ') && !path_exists {
        "https://github.com/"@ + strip_suffix_all(t, seq!['.', 'g', 'i', 't']) + ".git"@
    } else {
        t
    }
}

/// The text `head` followed by the characters of `tail`.
fn text_with(head: &str, tail: &[char], end: &str) -> (r: String)
    ensures
        r@ == head@ + tail@ + end@,
{
    let mut out: Vec<char> = chars_of(head);
    let ghost h = out@;
    for i in 0..tail.len()
        invariant
            out@ == h + tail@.take(i as int),
    {
        out.push(tail[i]);
        assert(out@ =~= h + tail@.take(i + 1));
    }
    assert(tail@.take(tail@.len() as int) =~= tail@);
    let e = chars_of(end);
    let ghost mid = out@;
    for i in 0..e.len()
        invariant
            out@ == mid + e@.take(i as int),
    {
        out.push(e[i]);
        assert(out@ =~= mid + e@.take(i + 1));
    }
    assert(e@.take(e@.len() as int) =~= e@);
    string_from(&out)
}

/// Exec form of [`template_url`]; `path_exists` tells whether the trimmed
/// reference names an existing path.
pub fn resolve_template_url(tmpl: &str, path_exists: bool) -> (r: String)
    ensures
        r@ == template_url(tmpl@, path_exists),
{
    let v = chars_of(tmpl);
    let (a, b) = trim_bounds(&v);
    let t = sub_chars(&v, a, b);
    let dot_git = vec!['.', 'g', 'i', 't'];
    assert(dot_git@ == seq!['.', 'g', 'i', 't']);
    let scheme = vec![':', '/', '/'];
    assert(scheme@ == seq![':', '/', '/']);
    let at = vec!['g', 'i', 't', '@'];
    assert(at@ == seq!['g', 'i', 't', '@']);
    let ends_git = dot_git.len() <= t.len() && occurs_at(&t, t.len() - dot_git.len(), &dot_git);
    proof {
        if dot_git@.len() <= t@.len() {
            assert(t@.subrange(t@.len() - 4, t@.len() as int) =~= t@.skip(t@.len() - 4));
        }
        assert(t@.subrange(0, 4) =~= t@.take(4));
    }
    if contains_chars(&t, &scheme) || occurs_at(&t, 0, &at) || ends_git {
        return string_from(&t);
    }
    let gh = vec!['g', 'h', ':'];
    let gl = vec!['g', 'l', ':'];
    let cb = vec!['c', 'b', ':'];
    let sh = vec!['s', 'h', ':'];
    assert(gh@ == seq!['g', 'h', ':'] && gl@ == seq!['g', 'l', ':'] && cb@ == seq!['c', 'b', ':'] && sh@ == seq!['s', 'h', ':']);
    proof {
        assert(t@.subrange(0, 3) =~= t@.take(3));
        if t@.len() >= 3 {
            assert(t@.subrange(3, t@.len() as int) =~= t@.skip(3));
        }
    }
    if occurs_at(&t, 0, &gh) {
        let base = trim_end_matches(&sub_chars(&t, 3, t.len()), &dot_git);
        return text_with("https://github.com/", &base, ".git");
    }
    if occurs_at(&t, 0, &gl) {
        let base = trim_end_matches(&sub_chars(&t, 3, t.len()), &dot_git);
        return text_with("https://gitlab.com/", &base, ".git");
    }
    if occurs_at(&t, 0, &cb) {
        let base = trim_end_matches(&sub_chars(&t, 3, t.len()), &dot_git);
        return text_with("https://codeberg.org/", &base, ".git");
    }
    if occurs_at(&t, 0, &sh) {
        let base = trim_end_matches(&sub_chars(&t, 3, t.len()), &dot_git);
        let r = text_with("https://git.sr.ht/~", &base, "");
        proof {
            reveal_strlit("");
            assert(r@ =~= "https://git.sr.ht/~"@ + base@);
        }
        return r;
    }
    let mut slash = false;
    let mut space = false;
    for i in 0..t.len()
        invariant
            slash == exists|j: int| 0 <= j < i && t@[j] == '/',
            space == exists|j: int| 0 <= j < i && t@[j] == ' ',
    {
        if t[i] == '/' {
            slash = true;
        }
        if t[i] == ' ' {
            space = true;
        }
    }
    proof {
        if slash {
            let j = choose|j: int| 0 <= j < t@.len() && t@[j] == '/';
            assert(t@.contains('/'));
        }
        if space {
            let j = choose|j: int| 0 <= j < t@.len() && t@[j] == ' ';
            assert(t@.contains(' '));
        }
    }
    if slash && !space && !path_exists {
        let base = trim_end_matches(&t, &dot_git);
        return text_with("https://github.com/", &base, ".git");
    }
    string_from(&t)
}

/// Append `parts` joined with `sep`.
fn push_joined(out: &mut String, parts: &[String], sep: &str)
    ensures
        final(out)@ == old(out)@ + join_with(views(parts@), sep@),
{
    let ghost start = out@;
    for i in 0..parts.len()
        invariant
            out@ == start + join_with(views(parts@.take(i as int)), sep@),
    {
        let ghost before = out@;
        if i > 0 {
            push_str(out, sep);
        }
        push_str(out, parts[i].as_str());
        proof {
            let taken = views(parts@.take(i + 1));
            assert(taken.drop_last() =~= views(parts@.take(i as int)));
            assert(taken.last() == parts@[i as int]@);
            if i == 0 {
                assert(taken =~= seq![parts@[0]@]);
            }
        }
        assert(out@ =~= start + join_with(views(parts@.take(i + 1)), sep@));
    }
    assert(parts@.take(parts@.len() as int) =~= parts@);
}

/// The flags `pkg-config` printed: its output split at whitespace.
pub fn pkg_config_flags(output: &str) -> (r: Vec<String>)
    ensures
        views(r@) == words_spec(output@),
{
    let v = chars_of(output);
    let words = words_of(&v);
    let mut r: Vec<String> = Vec::new();
    for i in 0..words.len()
        invariant
            r@.len() == i,
            forall|k: int| 0 <= k < i ==> #[trigger] r@[k]@ == words@[k]@,
    {
        let ghost before = r@;
        let w = string_from(&words[i]);
        assert(w@ == words@[i as int]@);
        r.push(w);
        assert(r@ == before.push(w));
    }
    assert(views(r@) =~= words@.map_values(|w: Vec<char>| w@));
    r
}

/// The error when `pkg-config <query> names..` fails: its trimmed message,
/// or `package not found` when it printed nothing.
pub fn pkg_config_failed(query: &str, names: &[String], stderr: &str) -> (e: CbldError)
    ensures
        e matches CbldError::Config(m) && m@ == "pkg-config "@ + query@ + " "@ + join_with(views(names@), " "@)
            + " failed: "@ + if trim_ws(stderr@).len() == 0 {
            "package not found"@
        } else {
            trim_ws(stderr@)
        },
{
    let mut m = String::new();
    push_str(&mut m, "pkg-config ");
    push_str(&mut m, query);
    push_str(&mut m, " ");
    push_joined(&mut m, names, " ");
    push_str(&mut m, " failed: ");
    let mut detail = String::new();
    push_trimmed(&mut detail, stderr);
    if detail.as_str().is_empty() {
        push_str(&mut m, "package not found");
    } else {
        push_str(&mut m, detail.as_str());
    }
    CbldError::Config(m)
}

/// The error when `pkg-config` cannot be started for `names`.
pub fn pkg_config_missing(names: &[String], cause: &str) -> (e: CbldError)
    ensures
        e matches CbldError::Environment(m) && m@ == "pkg-config not found on PATH (needed for pkg_config = ["@
            + join_with(views(names@), ", "@) + "]): "@ + cause@,
{
    let mut m = String::new();
    push_str(&mut m, "pkg-config not found on PATH (needed for pkg_config = [");
    push_joined(&mut m, names, ", ");
    push_str(&mut m, "]): ");
    push_str(&mut m, cause);
    CbldError::Environment(m)
}

} // verus!
