//! Two orders on text: that of `str` values (lexicographic by code point,
//! which is the order of their UTF-8 bytes) and that of paths (component by
//! component, which for clean `/`-separated paths is the lexicographic
//! order with `/` below every other character).
use vstd::prelude::*;

verus! {

/// Order of two characters; with `slash_first`, `/` comes before all others.
pub open spec fn char_before(x: char, y: char, slash_first: bool) -> bool {
    if slash_first && x == '/' {
        y != '/'
    } else if slash_first && y == '/' {
        false
    } else {
        x < y
    }
}

/// `a[i..] < b[i..]` in lexicographic order.
pub open spec fn lt_from(a: Seq<char>, b: Seq<char>, i: int, slash_first: bool) -> bool
    decreases a.len() - i,
{
    if i < 0 || i >= a.len() {
        0 <= i < b.len()
    } else if i >= b.len() {
        false
    } else if a[i] != b[i] {
        char_before(a[i], b[i], slash_first)
    } else {
        lt_from(a, b, i + 1, slash_first)
    }
}

/// `a < b` as `str` orders them.
pub closed spec fn key_lt(a: Seq<char>, b: Seq<char>) -> bool {
    lt_from(a, b, 0, false)
}

/// `a < b` as `Path` orders them.
pub closed spec fn path_lt(a: Seq<char>, b: Seq<char>) -> bool {
    lt_from(a, b, 0, true)
}

proof fn lemma_lt_from_irreflexive(a: Seq<char>, i: int, f: bool)
    requires
        0 <= i,
    ensures
        !lt_from(a, a, i, f),
    decreases a.len() - i,
{
    if i < a.len() {
        lemma_lt_from_irreflexive(a, i + 1, f);
    }
}

proof fn lemma_lt_from_total(a: Seq<char>, b: Seq<char>, i: int, f: bool)
    requires
        0 <= i <= a.len(),
        i <= b.len(),
        !lt_from(a, b, i, f),
        !lt_from(b, a, i, f),
    ensures
        a.len() == b.len(),
        forall|k: int| i <= k < a.len() ==> a[k] == b[k],
    decreases a.len() - i,
{
    if i < a.len() && i < b.len() && a[i] == b[i] {
        lemma_lt_from_total(a, b, i + 1, f);
    }
}

proof fn lemma_lt_from_transitive(a: Seq<char>, b: Seq<char>, c: Seq<char>, i: int, f: bool)
    requires
        0 <= i,
        lt_from(a, b, i, f),
        lt_from(b, c, i, f),
    ensures
        lt_from(a, c, i, f),
    decreases a.len() - i,
{
    if i < a.len() && i < b.len() && i < c.len() && a[i] == b[i] && b[i] == c[i] {
        lemma_lt_from_transitive(a, b, c, i + 1, f);
    }
}

/// No key is below itself.
pub proof fn lemma_key_lt_irreflexive(a: Seq<char>)
    ensures
        !key_lt(a, a),
{
    lemma_lt_from_irreflexive(a, 0, false);
}

/// Two different keys are ordered one way or the other.
pub proof fn lemma_key_lt_total(a: Seq<char>, b: Seq<char>)
    ensures
        a != b ==> key_lt(a, b) || key_lt(b, a),
{
    if !key_lt(a, b) && !key_lt(b, a) {
        lemma_lt_from_total(a, b, 0, false);
        assert(a =~= b);
    }
}

/// The order is transitive.
pub proof fn lemma_key_lt_transitive(a: Seq<char>, b: Seq<char>, c: Seq<char>)
    requires
        key_lt(a, b),
        key_lt(b, c),
    ensures
        key_lt(a, c),
{
    lemma_lt_from_transitive(a, b, c, 0, false);
}

/// The order is asymmetric.
pub proof fn lemma_key_lt_asymmetric(a: Seq<char>, b: Seq<char>)
    ensures
        !(key_lt(a, b) && key_lt(b, a)),
{
    if key_lt(a, b) && key_lt(b, a) {
        lemma_key_lt_transitive(a, b, a);
        lemma_key_lt_irreflexive(a);
    }
}

/// `a < b` on the characters of two strings.
pub fn chars_lt(a: &[char], b: &[char]) -> (r: bool)
    ensures
        r == key_lt(a@, b@),
{
    let mut i: usize = 0;
    while i < a.len() && i < b.len() && a[i] == b[i]
        invariant
            i <= a@.len(),
            i <= b@.len(),
            lt_from(a@, b@, i as int, false) == key_lt(a@, b@),
        decreases a@.len() - i,
    {
        i += 1;
    }
    if i >= a.len() {
        i < b.len()
    } else if i >= b.len() {
        false
    } else {
        a[i] < b[i]
    }
}

/// No path is below itself.
pub proof fn lemma_path_lt_irreflexive(a: Seq<char>)
    ensures
        !path_lt(a, a),
{
    lemma_lt_from_irreflexive(a, 0, true);
}

/// Two different paths are ordered one way or the other.
pub proof fn lemma_path_lt_total(a: Seq<char>, b: Seq<char>)
    ensures
        a != b ==> path_lt(a, b) || path_lt(b, a),
{
    if !path_lt(a, b) && !path_lt(b, a) {
        lemma_lt_from_total(a, b, 0, true);
        assert(a =~= b);
    }
}

/// The path order is transitive.
pub proof fn lemma_path_lt_transitive(a: Seq<char>, b: Seq<char>, c: Seq<char>)
    requires
        path_lt(a, b),
        path_lt(b, c),
    ensures
        path_lt(a, c),
{
    lemma_lt_from_transitive(a, b, c, 0, true);
}

/// `a < b` on the characters of two paths.
pub fn path_chars_lt(a: &[char], b: &[char]) -> (r: bool)
    ensures
        r == path_lt(a@, b@),
{
    let mut i: usize = 0;
    while i < a.len() && i < b.len() && a[i] == b[i]
        invariant
            i <= a@.len(),
            i <= b@.len(),
            lt_from(a@, b@, i as int, true) == path_lt(a@, b@),
        decreases a@.len() - i,
    {
        i += 1;
    }
    if i >= a.len() {
        i < b.len()
    } else if i >= b.len() {
        false
    } else if a[i] == '/' {
        true
    } else if b[i] == '/' {
        false
    } else {
        a[i] < b[i]
    }
}

} // verus!
