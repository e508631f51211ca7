//! Paths as `/`-separated text, with the parts of `std::path::Path` that the
//! planners of this crate use.
use vstd::prelude::*;

use crate::order::{lemma_path_lt_irreflexive, lemma_path_lt_total, lemma_path_lt_transitive, path_chars_lt, path_lt};
use crate::text::{chars_eq, chars_of, has_prefix, starts_with_chars, string_from, sub_chars, trim_end, trim_end_char};

verus! {

/// Position of the last `c` in `s`, if any.
pub open spec fn last_index_of(s: Seq<char>, c: char) -> Option<int>
    decreases s.len(),
{
    if s.len() == 0 {
        None
    } else if s.last() == c {
        Some(s.len() - 1)
    } else {
        last_index_of(s.drop_last(), c)
    }
}

/// `a.join(b)`: `b` when it is absolute, otherwise `b` appended to `a` with
/// one separator.
pub open spec fn join_spec(a: Seq<char>, b: Seq<char>) -> Seq<char> {
    if b.len() > 0 && b[0] == '/' {
        b
    } else if a.len() == 0 {
        b
    } else if a.last() == '/' {
        a + b
    } else {
        a + seq!['/'] + b
    }
}

/// The last component of a path, ignoring trailing separators; `None` for
/// an empty path, the root, or a final `..`.
pub open spec fn file_name_spec(p: Seq<char>) -> Option<Seq<char>> {
    let q = trim_end_char(p, '/');
    let name = match last_index_of(q, '/') {
        Some(k) => q.subrange(k + 1, q.len() as int),
        None => q,
    };
    if name.len() == 0 || name == seq!['.', '.'] {
        None
    } else {
        Some(name)
    }
}

/// The extension of a file name: the text after its last `.`, unless the
/// only `.` starts the name.
pub open spec fn extension_of_name(name: Seq<char>) -> Option<Seq<char>> {
    match last_index_of(name, '.') {
        Some(k) => if k == 0 { None } else { Some(name.subrange(k + 1, name.len() as int)) },
        None => None,
    }
}

/// `Path::extension`.
pub open spec fn extension_spec(p: Seq<char>) -> Option<Seq<char>> {
    match file_name_spec(p) {
        Some(name) => extension_of_name(name),
        None => None,
    }
}

/// `Path::parent`, ignoring trailing separators: `None` for an empty path
/// or the root, `""` for a single relative component.
pub open spec fn parent_spec(p: Seq<char>) -> Option<Seq<char>> {
    let q = trim_end_char(p, '/');
    if q.len() == 0 {
        None
    } else {
        match last_index_of(q, '/') {
            Some(k) => {
                let r = trim_end_char(q.subrange(0, k), '/');
                if r.len() == 0 { Some(seq!['/']) } else { Some(r) }
            },
            None => Some(seq![]),
        }
    }
}

pub proof fn lemma_last_index_of(s: Seq<char>, c: char)
    ensures
        last_index_of(s, c) matches Some(k) ==> 0 <= k < s.len() && s[k] == c
            && !s.subrange(k + 1, s.len() as int).contains(c),
        last_index_of(s, c) is None ==> !s.contains(c),
    decreases s.len(),
{
    if s.len() > 0 && s.last() != c {
        lemma_last_index_of(s.drop_last(), c);
        if let Some(k) = last_index_of(s, c) {
            assert(s.subrange(k + 1, s.len() as int) =~= s.drop_last().subrange(k + 1, s.len() - 1).push(s.last()));
        } else {
            assert forall|i: int| 0 <= i < s.len() implies s[i] != c by {
                if i < s.len() - 1 {
                    assert(s.drop_last()[i] == s[i]);
                }
            }
        }
    } else if s.len() > 0 {
        assert(s.subrange(s.len() as int, s.len() as int) =~= seq![]);
    }
}

proof fn lemma_trim_end_char_prefix(s: Seq<char>, c: char)
    ensures
        trim_end_char(s, c).len() <= s.len(),
        trim_end_char(s, c) == s.take(trim_end_char(s, c).len() as int),
    decreases s.len(),
{
    if s.len() > 0 && s.last() == c {
        lemma_trim_end_char_prefix(s.drop_last(), c);
        assert(s.drop_last().take(trim_end_char(s, c).len() as int) =~= s.take(trim_end_char(s, c).len() as int));
    } else {
        assert(s.take(s.len() as int) =~= s);
    }
}

/// Exec form of [`last_index_of`].
pub fn last_index(v: &[char], c: char) -> (r: Option<usize>)
    ensures
        r matches Some(k) ==> last_index_of(v@, c) == Some(k as int) && k < v@.len(),
        r is None ==> last_index_of(v@, c) is None,
{
    let mut k = v.len();
    assert(v@.take(k as int) =~= v@);
    while k > 0
        invariant
            k <= v@.len(),
            last_index_of(v@.take(k as int), c) == last_index_of(v@, c),
        decreases k,
    {
        if v[k - 1] == c {
            return Some(k - 1);
        }
        assert(v@.take(k as int).drop_last() =~= v@.take(k - 1));
        k -= 1;
    }
    None
}

/// `a.join(b)` on `/`-separated text.
pub fn join(a: &str, b: &str) -> (r: String)
    ensures
        r@ == join_spec(a@, b@),
{
    let av = chars_of(a);
    let bv = chars_of(b);
    let mut out: Vec<char> = Vec::new();
    if bv.len() > 0 && bv[0] == '/' {
        return string_from(&bv);
    }
    if av.len() > 0 {
        out = sub_chars(&av, 0, av.len());
        if av[av.len() - 1] != '/' {
            out.push('/');
        }
    }
    let ghost head = out@;
    for i in 0..bv.len()
        invariant
            out@ == head + bv@.take(i as int),
    {
        out.push(bv[i]);
        assert(bv@.take(i + 1) =~= bv@.take(i as int).push(bv@[i as int]));
    }
    assert(bv@.take(bv@.len() as int) =~= bv@);
    assert(av@.subrange(0, av@.len() as int) =~= av@);
    assert(out@ =~= join_spec(av@, bv@));
    string_from(&out)
}

/// `Path::file_name` on `/`-separated text.
pub fn file_name(p: &str) -> (r: Option<String>)
    ensures
        r matches Some(n) ==> file_name_spec(p@) == Some(n@),
        r is None ==> file_name_spec(p@) is None,
{
    let v = chars_of(p);
    let q = trim_end(&v, '/');
    proof {
        lemma_trim_end_char_prefix(v@, '/');
    }
    let name = match last_index(&q, '/') {
        Some(k) => {
            proof {
                lemma_last_index_of(q@, '/');
            }
            let qn = q.len();
            sub_chars(&q, k + 1, qn)
        },
        None => q,
    };
    if name.len() == 0 || (name.len() == 2 && name[0] == '.' && name[1] == '.') {
        assert(name.len() == 2 && name[0] == '.' && name[1] == '.' ==> name@ =~= seq!['.', '.']);
        None
    } else {
        assert(name@ != seq!['.', '.']);
        Some(string_from(&name))
    }
}

/// `Path::extension` on `/`-separated text.
pub fn extension(p: &str) -> (r: Option<String>)
    ensures
        r matches Some(e) ==> extension_spec(p@) == Some(e@),
        r is None ==> extension_spec(p@) is None,
{
    match file_name(p) {
        Some(name) => {
            let v = chars_of(name.as_str());
            match last_index(&v, '.') {
                Some(k) => {
                    proof {
                        lemma_last_index_of(v@, '.');
                    }
                    if k == 0 {
                        None
                    } else {
                        let vn = v.len();
                        Some(string_from(&sub_chars(&v, k + 1, vn)))
                    }
                },
                None => None,
            }
        },
        None => None,
    }
}

/// `Path::parent` on `/`-separated text.
pub fn parent(p: &str) -> (r: Option<String>)
    ensures
        r matches Some(n) ==> parent_spec(p@) == Some(n@),
        r is None ==> parent_spec(p@) is None,
{
    let v = chars_of(p);
    let q = trim_end(&v, '/');
    proof {
        lemma_trim_end_char_prefix(v@, '/');
    }
    if q.len() == 0 {
        return None;
    }
    match last_index(&q, '/') {
        Some(k) => {
            proof {
                lemma_last_index_of(q@, '/');
            }
            let head = sub_chars(&q, 0, k);
            let r = trim_end(&head, '/');
            if r.len() == 0 {
                let mut root = String::new();
                root.push('/');
                assert(root@ =~= seq!['/']);
                Some(root)
            } else {
                Some(string_from(&r))
            }
        },
        None => Some(String::new()),
    }
}

/// Paths in strictly ascending path order, hence without repeats.
#[verifier::opaque]
pub open spec fn paths_ascending(v: Seq<String>) -> bool {
    forall|i: int, j: int| 0 <= i < j < v.len() ==> path_lt(#[trigger] v[i]@, #[trigger] v[j]@)
}

/// Whether some string of `v` has the characters `k`.
pub open spec fn lists(v: Seq<String>, k: Seq<char>) -> bool {
    exists|a: int| 0 <= a < v.len() && #[trigger] v[a]@ == k
}

proof fn lemma_insert_path_order(v: Seq<String>, i: int, s: String)
    requires
        paths_ascending(v),
        0 <= i <= v.len(),
        forall|j: int| 0 <= j < i ==> path_lt(#[trigger] v[j]@, s@),
        i < v.len() ==> !path_lt(v[i]@, s@) && v[i]@ != s@,
    ensures
        paths_ascending(v.insert(i, s)),
{
    reveal(paths_ascending);
    let t = v.insert(i, s);
    if i < v.len() {
        lemma_path_lt_total(v[i]@, s@);
        assert forall|j: int| i <= j < v.len() implies path_lt(s@, #[trigger] v[j]@) by {
            if j > i {
                assert(path_lt(v[i]@, v[j]@));
                lemma_path_lt_transitive(s@, v[i]@, v[j]@);
            }
        }
    }
    assert forall|a: int, b: int| 0 <= a < b < t.len() implies path_lt(#[trigger] t[a]@, #[trigger] t[b]@) by {
        if b < i {
            assert(path_lt(v[a]@, v[b]@));
        } else if b == i {
            assert(path_lt(v[a]@, s@));
        } else if a == i {
            assert(path_lt(s@, v[b - 1]@));
        } else if a < i {
            assert(path_lt(v[a]@, v[b - 1]@));
        } else {
            assert(path_lt(v[a - 1]@, v[b - 1]@));
        }
    }
}

proof fn lemma_insert_path_members(v: Seq<String>, t: Seq<String>, i: int, s: String)
    requires
        0 <= i <= v.len(),
        t == v.insert(i, s),
    ensures
        forall|k: Seq<char>| #[trigger] lists(t, k) <==> lists(v, k) || k == s@,
{
    assert forall|k: Seq<char>| #[trigger] lists(t, k) <==> lists(v, k) || k == s@ by {
        if lists(t, k) {
            let a = choose|a: int| 0 <= a < t.len() && #[trigger] t[a]@ == k;
            if a < i {
                assert(v[a]@ == k);
            } else if a > i {
                assert(v[a - 1]@ == k);
            }
        }
        if lists(v, k) {
            let a = choose|a: int| 0 <= a < v.len() && #[trigger] v[a]@ == k;
            if a < i {
                assert(t[a]@ == k);
            } else {
                assert(t[a + 1]@ == k);
            }
        }
        if k == s@ {
            assert(t[i]@ == k);
        }
    }
}

/// Add `s` to ascending paths, unless it is there already.
fn insert_path(v: &mut Vec<String>, s: String)
    requires
        paths_ascending(old(v)@),
    ensures
        paths_ascending(final(v)@),
        forall|k: Seq<char>| #[trigger] lists(final(v)@, k) <==> lists(old(v)@, k) || k == s@,
{
    let sv = chars_of(s.as_str());
    let ghost start = v@;
    let mut i: usize = 0;
    while i < v.len()
        invariant
            v@ == start,
            i <= start.len(),
            sv@ == s@,
            forall|j: int| 0 <= j < i ==> path_lt(#[trigger] start[j]@, s@),
        ensures
            v@ == start,
            i <= start.len(),
            forall|j: int| 0 <= j < i ==> path_lt(#[trigger] start[j]@, s@),
            i < start.len() ==> !path_lt(start[i as int]@, s@),
        decreases start.len() - i,
    {
        let here = chars_of(v[i].as_str());
        if !path_chars_lt(&here, &sv) {
            break;
        }
        i += 1;
    }
    if i < v.len() && chars_eq(&chars_of(v[i].as_str()), &sv) {
        proof {
            assert forall|k: Seq<char>| #[trigger] lists(start, k) <==> lists(start, k) || k == s@ by {
                if k == s@ {
                    assert(start[i as int]@ == k);
                }
            }
        }
        return;
    }
    let ghost item = s;
    v.insert(i, s);
    proof {
        lemma_insert_path_order(start, i as int, item);
        lemma_insert_path_members(start, v@, i as int, item);
    }
}

/// The distinct paths of `items` in ascending path order (sort, then dedup).
pub fn sorted_paths(items: &Vec<String>) -> (r: Vec<String>)
    ensures
        paths_ascending(r@),
        forall|k: Seq<char>| #[trigger] lists(r@, k) <==> lists(items@, k),
{
    let mut r: Vec<String> = Vec::new();
    proof {
        reveal(paths_ascending);
    }
    for n in 0..items.len()
        invariant
            paths_ascending(r@),
            forall|k: Seq<char>| #[trigger] lists(r@, k) <==> lists(items@.take(n as int), k),
    {
        let ghost before = r@;
        insert_path(&mut r, items[n].clone());
        proof {
            assert forall|k: Seq<char>| #[trigger] lists(r@, k) <==> lists(items@.take(n + 1), k) by {
                assert(lists(before, k) <==> lists(items@.take(n as int), k));
                if lists(items@.take(n + 1), k) {
                    let a = choose|a: int| 0 <= a < n + 1 && #[trigger] items@.take(n + 1)[a]@ == k;
                    if a < n {
                        assert(items@.take(n as int)[a]@ == k);
                    }
                }
                if lists(items@.take(n as int), k) {
                    let a = choose|a: int| 0 <= a < n && #[trigger] items@.take(n as int)[a]@ == k;
                    assert(items@.take(n + 1)[a]@ == k);
                }
                if k == items@[n as int]@ {
                    assert(items@.take(n + 1)[n as int]@ == k);
                }
            }
        }
    }
    assert(items@.take(items@.len() as int) =~= items@);
    r
}

/// `p.strip_prefix(base)` for clean paths: what follows `base` and its
/// separator, or `p` itself when `base` is not a leading part of it.
pub open spec fn relative_to(p: Seq<char>, base: Seq<char>) -> Seq<char> {
    if p == base {
        seq![]
    } else if base.len() > 0 && base.last() == '/' && has_prefix(p, base) {
        p.skip(base.len() as int)
    } else if has_prefix(p, base.push('/')) {
        p.skip(base.len() + 1int)
    } else {
        p
    }
}

/// `PathBuf::set_extension(ext)`: the extension of the file name replaced
/// by `ext`, or added when it has none; a path without a file name stays.
pub open spec fn with_extension(p: Seq<char>, ext: Seq<char>) -> Seq<char> {
    match file_name_spec(p) {
        None => p,
        Some(name) => {
            let q = trim_end_char(p, '/');
            match extension_of_name(name) {
                Some(e) => q.take(q.len() - e.len() - 1) + seq!['.'] + ext,
                None => q + seq!['.'] + ext,
            }
        },
    }
}

proof fn lemma_extension_fits(p: Seq<char>)
    requires
        file_name_spec(p) is Some,
        extension_of_name(file_name_spec(p)->0) is Some,
    ensures
        extension_of_name(file_name_spec(p)->0)->0.len() + 1 <= trim_end_char(p, '/').len(),
{
    let q = trim_end_char(p, '/');
    let name = file_name_spec(p)->0;
    lemma_last_index_of(q, '/');
    lemma_last_index_of(name, '.');
    assert(name.len() <= q.len());
}

/// `root.strip_prefix(base)` as in [`relative_to`].
pub fn strip_base(p: &str, base: &str) -> (r: String)
    ensures
        r@ == relative_to(p@, base@),
{
    let pv = chars_of(p);
    let bv = chars_of(base);
    if chars_eq(&pv, &bv) {
        return String::new();
    }
    if bv.len() > 0 && bv[bv.len() - 1] == '/' && starts_with_chars(&pv, &bv) {
        return string_from(&sub_chars(&pv, bv.len(), pv.len()));
    }
    let mut with_sep = sub_chars(&bv, 0, bv.len());
    with_sep.push('/');
    assert(with_sep@ =~= bv@.push('/'));
    if starts_with_chars(&pv, &with_sep) {
        assert(with_sep@.len() == bv@.len() + 1 && with_sep@.len() <= pv@.len());
        return string_from(&sub_chars(&pv, bv.len() + 1, pv.len()));
    }
    string_from(&pv)
}

/// `p` with its extension set to `ext`, as in [`with_extension`].
pub fn set_extension(p: &str, ext: &str) -> (r: String)
    ensures
        r@ == with_extension(p@, ext@),
{
    if file_name(p).is_none() {
        return p.to_owned();
    }
    let v = chars_of(p);
    let q = trim_end(&v, '/');
    let e = chars_of(ext);
    let keep = match extension(p) {
        Some(old) => {
            proof {
                lemma_extension_fits(p@);
            }
            q.len() - chars_of(old.as_str()).len() - 1
        },
        None => q.len(),
    };
    let mut out = sub_chars(&q, 0, keep);
    out.push('.');
    let ghost head = out@;
    for i in 0..e.len()
        invariant
            out@ == head + e@.take(i as int),
    {
        out.push(e[i]);
        assert(out@ =~= head + e@.take(i + 1));
    }
    assert(e@.take(e@.len() as int) =~= e@);
    assert(q@.take(q@.len() as int) =~= q@);
    string_from(&out)
}

/// Paths in ascending order hold no path twice: a sorted listing is also
/// free of duplicates.
pub proof fn lemma_ascending_paths_distinct(v: Seq<String>)
    requires
        paths_ascending(v),
    ensures
        forall|i: int, j: int| 0 <= i < j < v.len() ==> #[trigger] v[i]@ != #[trigger] v[j]@,
{
    reveal(paths_ascending);
    assert forall|i: int, j: int| 0 <= i < j < v.len() implies #[trigger] v[i]@ != #[trigger] v[j]@ by {
        lemma_path_lt_irreflexive(v[i]@);
        assert(path_lt(v[i]@, v[j]@));
    }
}

} // verus!
